//! Writing an archive: from a walked directory tree to the ordered entries
//! of the package, and from the entries to the bytes of the archive.

use vstd::prelude::*;
use vstd::slice::slice_to_vec;
use crate::codec::{
    archive_image, directory_name, sink_accepts, sink_add_directory, sink_finish, sink_members,
    sink_new, sink_start_file, sink_write, within_limit, Packing, Written, ZipSink, CONTENT_LIMIT,
};
use crate::error::EpubError;
use crate::paths::{join, joined, relative_name, relative_to};
use crate::text::{chars_of, same_text};

verus! {

/// The name of the entry that identifies the package format. It comes first
/// in every archive and is stored as it is.
pub const MIMETYPE: &'static str = "mimetype";

/// The directory of the container descriptor, archived first.
pub const META_INF: &'static str = "META-INF";

/// The directory of the content, archived second.
pub const OEBPS: &'static str = "OEBPS";

/// The permission bits given to every entry.
pub const ENTRY_PERMISSIONS: u32 = 0o755;

/// Whether an entry is a file or a directory.
#[derive(Clone, Copy, Debug, PartialEq, Eq, Structural)]
pub enum EntryKind {
    File,
    Directory,
}

/// One entry of an archive.
#[derive(Debug, PartialEq, Eq)]
pub struct ArchiveEntry {
    /// The name, a path relative to the root of the archived tree.
    pub name: String,
    /// The content; empty for a directory.
    pub content: Vec<u8>,
    /// File or directory.
    pub kind: EntryKind,
    /// The Unix permission bits.
    pub permissions: u32,
}

/// An [`ArchiveEntry`] as plain values.
pub struct EntryModel {
    pub name: Seq<char>,
    pub content: Seq<u8>,
    pub kind: EntryKind,
    pub permissions: u32,
}

impl View for ArchiveEntry {
    type V = EntryModel;

    open spec fn view(&self) -> EntryModel {
        EntryModel {
            name: self.name@,
            content: self.content@,
            kind: self.kind,
            permissions: self.permissions,
        }
    }
}

/// The entries of a list, as plain values.
pub open spec fn entry_models(entries: Seq<ArchiveEntry>) -> Seq<EntryModel> {
    entries.map_values(|e: ArchiveEntry| e@)
}

/// One path met while walking the tree that is archived.
#[derive(Debug, PartialEq, Eq)]
pub struct TreeNode {
    /// The path, starting with the root of the tree.
    pub path: String,
    /// Whether the path is a regular file.
    pub is_file: bool,
    /// The content of the file; unused for anything else.
    pub content: Vec<u8>,
}

/// A [`TreeNode`] as plain values.
pub struct NodeModel {
    pub path: Seq<char>,
    pub is_file: bool,
    pub content: Seq<u8>,
}

impl View for TreeNode {
    type V = NodeModel;

    open spec fn view(&self) -> NodeModel {
        NodeModel { path: self.path@, is_file: self.is_file, content: self.content@ }
    }
}

/// The nodes of a list, as plain values.
pub open spec fn node_models(nodes: Seq<TreeNode>) -> Seq<NodeModel> {
    nodes.map_values(|n: TreeNode| n@)
}

/// The `mimetype` entry is stored as it is; every other file is compressed.
pub open spec fn packing_for(name: Seq<char>) -> Packing {
    if name == MIMETYPE@ {
        Packing::Stored
    } else {
        Packing::Deflated
    }
}

/// What the archive records for an entry: a file under its name with its
/// content; a directory under its name with a closing slash, without
/// content. Of the permissions the lowest nine bits are kept.
pub open spec fn recorded(e: EntryModel) -> Written {
    match e.kind {
        EntryKind::File => Written {
            name: e.name,
            directory: false,
            mode: e.permissions & 0o777,
            packing: packing_for(e.name),
            data: e.content,
        },
        EntryKind::Directory => Written {
            name: directory_name(e.name),
            directory: true,
            mode: e.permissions & 0o777,
            packing: Packing::Stored,
            data: Seq::empty(),
        },
    }
}

/// What the archive records for a list of entries, in their order.
pub open spec fn recorded_all(entries: Seq<EntryModel>) -> Seq<Written> {
    entries.map_values(|e: EntryModel| recorded(e))
}

/// A name is taken when a member is recorded under it.
pub open spec fn holds_name(members: Seq<Written>, name: Seq<char>) -> bool {
    exists|i: int| 0 <= i < members.len() && #[trigger] members[i].name == name
}

/// No two members are recorded under one name.
pub open spec fn distinct_names(members: Seq<Written>) -> bool {
    forall|i: int, j: int|
        0 <= i < j < members.len() ==> (#[trigger] members[i]).name != (#[trigger] members[j]).name
}

/// What holds of every archive of a package: the file `mimetype` comes
/// first, no name is used twice, and no member holds more content than the
/// format takes.
pub open spec fn well_formed(members: Seq<Written>) -> bool {
    &&& members.len() > 0 ==> members[0].name == MIMETYPE@ && !members[0].directory
    &&& distinct_names(members)
    &&& within_limit(members)
}

/// The list begins with the file entry named `mimetype`.
pub open spec fn mimetype_first(entries: Seq<EntryModel>) -> bool {
    &&& entries.len() > 0
    &&& entries[0].kind == EntryKind::File
    &&& entries[0].name == MIMETYPE@
}

/// A list of entries that can be written as the archive of a package.
pub open spec fn valid_plan(entries: Seq<EntryModel>) -> bool {
    mimetype_first(entries) && well_formed(recorded_all(entries))
}

/// Adding a member under a name that is not taken keeps the names distinct.
pub proof fn lemma_push_keeps_distinct(members: Seq<Written>, added: Written)
    requires
        distinct_names(members),
        !holds_name(members, added.name),
    ensures
        distinct_names(members.push(added)),
{
    let all = members.push(added);
    assert forall|i: int, j: int| 0 <= i < j < all.len() implies (#[trigger] all[i]).name != (
    #[trigger] all[j]).name by {
        if j == members.len() {
            assert(all[i] == members[i]);
            assert(members[i].name != added.name);
        } else {
            assert(all[i] == members[i] && all[j] == members[j]);
        }
    }
}

/// The codec takes `next` behind `members`: first as a member without
/// content, then with its content.
pub open spec fn takes(members: Seq<Written>, next: Written) -> bool {
    &&& sink_accepts(members, (Written { data: Seq::empty(), ..next }))
    &&& sink_accepts(members, next)
}

/// The codec takes every member of the list behind those before it.
pub open spec fn all_taken(members: Seq<Written>) -> bool {
    forall|k: int| 0 <= k < members.len() ==> takes(members.take(k), #[trigger] members[k])
}

/// The bytes of the archive that is written member by member: the image of
/// the members where the codec takes each of them and closes the archive,
/// nothing where it refuses one of them or fails to close.
pub open spec fn written_image(members: Seq<Written>) -> Option<Seq<u8>> {
    if all_taken(members) {
        archive_image(members)
    } else {
        None
    }
}

/// An archive that is being written, in memory.
pub struct ArchiveWriter {
    sink: ZipSink,
}

impl View for ArchiveWriter {
    type V = Seq<Written>;

    /// The members added so far, in the order in which they were added.
    closed spec fn view(&self) -> Seq<Written> {
        sink_members(self.sink)
    }
}

impl ArchiveWriter {
    /// Starts an archive without members.
    pub fn begin() -> (writer: ArchiveWriter)
        ensures
            writer@ == Seq::<Written>::empty(),
            well_formed(writer@),
    {
        ArchiveWriter { sink: sink_new() }
    }

    /// Adds a file at the end, with its content and permission bits. The
    /// first member of an archive has to be the file `mimetype`, a name can
    /// be used once, and the content has to be within [`CONTENT_LIMIT`].
    ///
    /// The file is added exactly if the codec takes it behind the members
    /// held. After a failure nothing is known of the members, and the
    /// archive is to be given up.
    pub fn add_file(&mut self, name: &str, content: &[u8], permissions: u32) -> (res: Result<
        (),
        EpubError,
    >)
        requires
            well_formed(old(self)@),
            old(self)@.len() == 0 ==> name@ == MIMETYPE@,
            !holds_name(old(self)@, name@),
            content@.len() <= CONTENT_LIMIT,
        ensures
            res is Ok <==> takes(
                old(self)@,
                recorded(
                    (EntryModel {
                        name: name@,
                        content: content@,
                        kind: EntryKind::File,
                        permissions,
                    }),
                ),
            ),
            res is Ok ==> final(self)@ == old(self)@.push(
                recorded(
                    (EntryModel {
                        name: name@,
                        content: content@,
                        kind: EntryKind::File,
                        permissions,
                    }),
                ),
            ),
            res is Ok ==> well_formed(final(self)@),
            res matches Err(e) ==> e == EpubError::Io,
    {
        let packing = if same_text(name, MIMETYPE) {
            Packing::Stored
        } else {
            Packing::Deflated
        };
        let ghost before = self@;
        if sink_start_file(&mut self.sink, name, permissions, packing).is_err() {
            return Err(EpubError::Io);
        }
        assert(self@.drop_last() =~= before);
        if sink_write(&mut self.sink, content).is_err() {
            return Err(EpubError::Io);
        }
        proof {
            lemma_push_keeps_distinct(before, self@.last());
        }
        Ok(())
    }

    /// Adds a directory at the end, with its permission bits. It is recorded
    /// under its name with a closing slash. A directory cannot be the first
    /// member of an archive, and a name can be used once.
    ///
    /// The directory is added exactly if the codec accepts it behind the
    /// members held. After a failure nothing is known of the members, and
    /// the archive is to be given up.
    pub fn add_directory(&mut self, name: &str, permissions: u32) -> (res: Result<(), EpubError>)
        requires
            well_formed(old(self)@),
            old(self)@.len() > 0,
            !holds_name(old(self)@, directory_name(name@)),
        ensures
            res is Ok <==> sink_accepts(
                old(self)@,
                recorded(
                    (EntryModel {
                        name: name@,
                        content: Seq::empty(),
                        kind: EntryKind::Directory,
                        permissions,
                    }),
                ),
            ),
            res is Ok ==> final(self)@ == old(self)@.push(
                recorded(
                    (EntryModel {
                        name: name@,
                        content: Seq::empty(),
                        kind: EntryKind::Directory,
                        permissions,
                    }),
                ),
            ),
            res is Ok ==> well_formed(final(self)@),
            res matches Err(e) ==> e == EpubError::Io,
    {
        let ghost before = self@;
        if sink_add_directory(&mut self.sink, name, permissions).is_err() {
            return Err(EpubError::Io);
        }
        proof {
            lemma_push_keeps_distinct(before, self@.last());
        }
        Ok(())
    }

    /// Closes the archive and hands out its bytes: the image of the members
    /// that were added, or [`EpubError::Io`] where the codec cannot close
    /// the archive. An archive that a failed call has left in doubt is not
    /// closed but given up.
    pub fn finish(self) -> (res: Result<Vec<u8>, EpubError>)
        requires
            well_formed(self@),
        ensures
            match archive_image(self@) {
                Some(image) => res matches Ok(bytes) && bytes@ == image,
                None => res matches Err(e) && e == EpubError::Io,
            },
    {
        match sink_finish(self.sink) {
            Ok(bytes) => Ok(bytes),
            Err(_) => Err(EpubError::Io),
        }
    }
}

/// The entry that opens every archive: the file `mimetype` with its content.
pub open spec fn mimetype_entry(content: Seq<u8>) -> EntryModel {
    EntryModel {
        name: MIMETYPE@,
        content,
        kind: EntryKind::File,
        permissions: ENTRY_PERMISSIONS,
    }
}

/// What a walked path becomes in the archive. A file becomes a file entry
/// named by its path relative to the root; anything else becomes a directory
/// entry, unless it is the root itself, which is left out. A path that does
/// not lie under the root has no name in the archive, and a file with more
/// content than [`CONTENT_LIMIT`] cannot be written to it.
pub open spec fn entry_for(root: Seq<char>, node: NodeModel) -> Result<Option<EntryModel>, EpubError> {
    match relative_to(root, node.path) {
        None => Err(EpubError::UnsafeEntryName),
        Some(name) => if node.is_file && node.content.len() > CONTENT_LIMIT {
            Err(EpubError::Io)
        } else if node.is_file {
            Ok(
                Some(
                    EntryModel {
                        name,
                        content: node.content,
                        kind: EntryKind::File,
                        permissions: ENTRY_PERMISSIONS,
                    },
                ),
            )
        } else if name.len() != 0 {
            Ok(
                Some(
                    EntryModel {
                        name,
                        content: Seq::empty(),
                        kind: EntryKind::Directory,
                        permissions: ENTRY_PERMISSIONS,
                    },
                ),
            )
        } else {
            Ok(None)
        },
    }
}

/// The plan after one more walked path. An entry whose name the archive
/// holds already cannot be added: the archive cannot be created.
pub open spec fn extend_entries(root: Seq<char>, entries: Seq<EntryModel>, node: NodeModel) -> Result<
    Seq<EntryModel>,
    EpubError,
> {
    match entry_for(root, node) {
        Err(e) => Err(e),
        Ok(None) => Ok(entries),
        Ok(Some(e)) => if holds_name(recorded_all(entries), recorded(e).name) {
            Err(EpubError::Create)
        } else {
            Ok(entries.push(e))
        },
    }
}

/// The entries of the archive of a tree: `mimetype` first, then one entry
/// for each walked path, in the order of the walk; or the failure of the
/// first of them that cannot be added, `mimetype` included where it holds
/// more content than [`CONTENT_LIMIT`].
pub open spec fn planned_entries(root: Seq<char>, mimetype: Seq<u8>, nodes: Seq<NodeModel>) -> Result<
    Seq<EntryModel>,
    EpubError,
>
    decreases nodes.len(),
{
    if nodes.len() == 0 {
        if mimetype.len() > CONTENT_LIMIT {
            Err(EpubError::Io)
        } else {
            Ok(seq![mimetype_entry(mimetype)])
        }
    } else {
        match planned_entries(root, mimetype, nodes.drop_last()) {
            Err(e) => Err(e),
            Ok(entries) => extend_entries(root, entries, nodes.last()),
        }
    }
}

/// A plan that has failed on the first `k` walked paths fails in the same
/// way on all of them.
pub proof fn lemma_entries_failure_stays(
    root: Seq<char>,
    mimetype: Seq<u8>,
    nodes: Seq<NodeModel>,
    k: int,
)
    requires
        0 <= k <= nodes.len(),
        planned_entries(root, mimetype, nodes.take(k)) is Err,
    ensures
        planned_entries(root, mimetype, nodes) == planned_entries(root, mimetype, nodes.take(k)),
    decreases nodes.len() - k,
{
    if k < nodes.len() {
        assert(nodes.take(k + 1).drop_last() =~= nodes.take(k));
        lemma_entries_failure_stays(root, mimetype, nodes, k + 1);
    } else {
        assert(nodes.take(k) =~= nodes);
    }
}

/// Whatever tree is archived, the plan is valid: it begins with the file
/// `mimetype`, holding the content it was given, and the archive written
/// from it has `mimetype` as its first member, no name twice, and no content
/// beyond the limit.
pub proof fn lemma_plan_is_valid(root: Seq<char>, mimetype: Seq<u8>, nodes: Seq<NodeModel>)
    ensures
        planned_entries(root, mimetype, nodes) matches Ok(entries) ==> {
            &&& valid_plan(entries)
            &&& entries[0] == mimetype_entry(mimetype)
            &&& recorded_all(entries)[0].name == MIMETYPE@
            &&& !recorded_all(entries)[0].directory
        },
    decreases nodes.len(),
{
    if nodes.len() > 0 {
        lemma_plan_is_valid(root, mimetype, nodes.drop_last());
        match (planned_entries(root, mimetype, nodes.drop_last()), entry_for(root, nodes.last())) {
            (Ok(entries), Ok(Some(e))) => {
                if !holds_name(recorded_all(entries), recorded(e).name) {
                    assert(recorded_all(entries.push(e)) =~= recorded_all(entries).push(
                        recorded(e),
                    ));
                    lemma_push_keeps_distinct(recorded_all(entries), recorded(e));
                }
            },
            _ => {},
        }
    }
}

/// The entries of the walked paths that have one, in the order of the walk.
pub open spec fn entries_of(root: Seq<char>, nodes: Seq<NodeModel>) -> Seq<EntryModel>
    decreases nodes.len(),
{
    if nodes.len() == 0 {
        Seq::empty()
    } else {
        match entry_for(root, nodes.last()) {
            Ok(Some(e)) => entries_of(root, nodes.drop_last()).push(e),
            _ => entries_of(root, nodes.drop_last()),
        }
    }
}

/// A plan keeps the order of the walk: behind `mimetype` it holds the
/// entries of the walked paths in the order in which the paths were met, and
/// so at most one entry for each path.
pub proof fn lemma_plan_keeps_the_order(root: Seq<char>, mimetype: Seq<u8>, nodes: Seq<NodeModel>)
    ensures
        entries_of(root, nodes).len() <= nodes.len(),
        planned_entries(root, mimetype, nodes) matches Ok(entries) ==> {
            &&& entries == seq![mimetype_entry(mimetype)] + entries_of(root, nodes)
            &&& entries.len() == 1 + entries_of(root, nodes).len()
        },
    decreases nodes.len(),
{
    if nodes.len() > 0 {
        lemma_plan_keeps_the_order(root, mimetype, nodes.drop_last());
        match (planned_entries(root, mimetype, nodes.drop_last()), entry_for(root, nodes.last())) {
            (Ok(entries), Ok(Some(e))) => {
                assert((seq![mimetype_entry(mimetype)] + entries_of(root, nodes.drop_last())).push(
                    e,
                ) =~= seq![mimetype_entry(mimetype)] + entries_of(root, nodes));
            },
            _ => {},
        }
    } else if planned_entries(root, mimetype, nodes) is Ok {
        assert(seq![mimetype_entry(mimetype)] + entries_of(root, nodes) =~= seq![
            mimetype_entry(mimetype),
        ]);
    }
}

/// The entries of two walks, one after the other, are the entries of the
/// first followed by the entries of the second.
pub proof fn lemma_entries_of_two_walks(
    root: Seq<char>,
    first: Seq<NodeModel>,
    second: Seq<NodeModel>,
)
    ensures
        entries_of(root, first + second) == entries_of(root, first) + entries_of(root, second),
    decreases second.len(),
{
    if second.len() == 0 {
        assert(first + second =~= first);
        assert(entries_of(root, first) + entries_of(root, second) =~= entries_of(root, first));
    } else {
        let both = first + second;
        assert(both.drop_last() =~= first + second.drop_last());
        assert(both.last() == second.last());
        lemma_entries_of_two_walks(root, first, second.drop_last());
        match entry_for(root, second.last()) {
            Ok(Some(e)) => {
                assert((entries_of(root, first) + entries_of(root, second.drop_last())).push(e)
                    =~= entries_of(root, first) + entries_of(root, second));
            },
            _ => {},
        }
    }
}

/// The paths to read and to walk when the tree at `root` is archived: the
/// file `mimetype`, then the two directories in the order in which they are
/// walked.
pub fn tree_sources(root: &str) -> (sources: (String, Vec<String>))
    ensures
        sources.0@ == joined(root@, MIMETYPE@),
        sources.1@.len() == 2,
        sources.1@[0]@ == joined(root@, META_INF@),
        sources.1@[1]@ == joined(root@, OEBPS@),
{
    let mut walks: Vec<String> = Vec::new();
    walks.push(join(root, META_INF));
    walks.push(join(root, OEBPS));
    (join(root, MIMETYPE), walks)
}

/// The name under which the archive records a directory.
pub fn directory_form(name: &str) -> (recorded: String)
    ensures
        recorded@ == directory_name(name@),
{
    let v = chars_of(name);
    let mut recorded = String::from_str(name);
    if v.len() > 0 && (v[v.len() - 1] == '/' || v[v.len() - 1] == '\\') {
        recorded
    } else {
        proof {
            reveal_strlit("/");
            assert("/"@ =~= seq!['/']);
        }
        recorded.append("/");
        recorded
    }
}

/// The name under which the archive records an entry.
fn recorded_name(entry: &ArchiveEntry) -> (name: String)
    ensures
        name@ == recorded(entry@).name,
{
    match entry.kind {
        EntryKind::File => entry.name.clone(),
        EntryKind::Directory => directory_form(entry.name.as_str()),
    }
}

/// The texts of a list of names.
pub open spec fn name_texts(names: Seq<String>) -> Seq<Seq<char>> {
    names.map_values(|n: String| n@)
}

/// Tests whether `name` is among `names`.
fn is_taken(names: &Vec<String>, name: &str) -> (taken: bool)
    ensures
        taken == name_texts(names@).contains(name@),
{
    let mut i: usize = 0;
    while i < names.len()
        invariant
            i <= names.len(),
            forall|j: int| 0 <= j < i ==> name_texts(names@)[j] != name@,
        decreases names.len() - i,
    {
        if same_text(names[i].as_str(), name) {
            assert(name_texts(names@)[i as int] == name@);
            return true;
        }
        i += 1;
    }
    false
}

/// The names listed are those under which the entries are recorded.
spec fn lists_names(names: Seq<String>, entries: Seq<EntryModel>) -> bool {
    &&& names.len() == entries.len()
    &&& forall|i: int| 0 <= i < names.len() ==> (#[trigger] names[i])@ == recorded(entries[i]).name
}

/// With the recorded names listed, a name is taken exactly when it is in the
/// list.
proof fn lemma_listed_names(names: Seq<String>, entries: Seq<EntryModel>, name: Seq<char>)
    requires
        lists_names(names, entries),
    ensures
        name_texts(names).contains(name) == holds_name(recorded_all(entries), name),
{
    let members = recorded_all(entries);
    if name_texts(names).contains(name) {
        let i = choose|i: int| 0 <= i < names.len() && name_texts(names)[i] == name;
        assert(names[i]@ == name);
        assert(members[i].name == name);
    }
    if holds_name(members, name) {
        let i = choose|i: int| 0 <= i < members.len() && #[trigger] members[i].name == name;
        assert(names[i]@ == name);
        assert(name_texts(names)[i] == name);
    }
}

/// Opens a plan with the entry for `mimetype`, where its content is within
/// the limit.
fn open_plan(mimetype: &[u8]) -> (res: Result<(Vec<ArchiveEntry>, Vec<String>), EpubError>)
    ensures
        match res {
            Ok(opened) => mimetype@.len() <= CONTENT_LIMIT && entry_models(opened.0@) == seq![
                mimetype_entry(mimetype@),
            ] && lists_names(opened.1@, entry_models(opened.0@)),
            Err(e) => mimetype@.len() > CONTENT_LIMIT && e == EpubError::Io,
        },
{
    if mimetype.len() > CONTENT_LIMIT {
        return Err(EpubError::Io);
    }
    let mut entries: Vec<ArchiveEntry> = Vec::new();
    let mut names: Vec<String> = Vec::new();
    entries.push(
        ArchiveEntry {
            name: String::from_str(MIMETYPE),
            content: slice_to_vec(mimetype),
            kind: EntryKind::File,
            permissions: ENTRY_PERMISSIONS,
        },
    );
    names.push(String::from_str(MIMETYPE));
    assert(entry_models(entries@) =~= seq![mimetype_entry(mimetype@)]);
    Ok((entries, names))
}

/// Carries a plan on over one more walk. `done` are the paths that the plan
/// holds already; `names` lists the names under which its entries are
/// recorded.
fn plan_walk(
    root: &str,
    nodes: &Vec<TreeNode>,
    entries: &mut Vec<ArchiveEntry>,
    names: &mut Vec<String>,
    Ghost(mimetype): Ghost<Seq<u8>>,
    Ghost(done): Ghost<Seq<NodeModel>>,
) -> (res: Result<(), EpubError>)
    requires
        planned_entries(root@, mimetype, done) == Ok::<Seq<EntryModel>, EpubError>(
            entry_models(old(entries)@),
        ),
        lists_names(old(names)@, entry_models(old(entries)@)),
    ensures
        match planned_entries(root@, mimetype, done + node_models(nodes@)) {
            Ok(plan) => res is Ok && entry_models(final(entries)@) == plan && lists_names(
                final(names)@,
                plan,
            ),
            Err(e) => res matches Err(x) && x == e,
        },
{
    let ghost models = node_models(nodes@);
    let ghost all = done + models;
    let mut index: usize = 0;
    assert(done + models.take(0) =~= done);
    while index < nodes.len()
        invariant
            index <= nodes.len(),
            models == node_models(nodes@),
            all == done + models,
            planned_entries(root@, mimetype, done + models.take(index as int)) == Ok::<
                Seq<EntryModel>,
                EpubError,
            >(entry_models(entries@)),
            lists_names(names@, entry_models(entries@)),
        decreases nodes.len() - index,
    {
        let ghost before = entries@;
        let ghost reached = done + models.take(index + 1);
        proof {
            assert(reached.drop_last() =~= done + models.take(index as int));
            assert(reached.last() == nodes@[index as int]@);
            assert(all.take(done.len() + index + 1) =~= reached);
        }
        let node = &nodes[index];
        let added = match relative_name(root, node.path.as_str()) {
            None => {
                proof {
                    lemma_entries_failure_stays(root@, mimetype, all, done.len() + index + 1);
                }
                return Err(EpubError::UnsafeEntryName);
            },
            Some(name) => {
                if node.is_file {
                    if node.content.len() > CONTENT_LIMIT {
                        proof {
                            lemma_entries_failure_stays(root@, mimetype, all, done.len() + index + 1);
                        }
                        return Err(EpubError::Io);
                    }
                    Some(
                        ArchiveEntry {
                            name,
                            content: slice_to_vec(node.content.as_slice()),
                            kind: EntryKind::File,
                            permissions: ENTRY_PERMISSIONS,
                        },
                    )
                } else if !name.as_str().is_empty() {
                    Some(
                        ArchiveEntry {
                            name,
                            content: Vec::new(),
                            kind: EntryKind::Directory,
                            permissions: ENTRY_PERMISSIONS,
                        },
                    )
                } else {
                    None
                }
            },
        };
        match added {
            None => {},
            Some(entry) => {
                let name = recorded_name(&entry);
                proof {
                    lemma_listed_names(names@, entry_models(before), name@);
                }
                if is_taken(names, name.as_str()) {
                    proof {
                        lemma_entries_failure_stays(root@, mimetype, all, done.len() + index + 1);
                    }
                    return Err(EpubError::Create);
                }
                entries.push(entry);
                names.push(name);
                assert(entry_models(entries@) =~= entry_models(before).push(entries@.last()@));
            },
        }
        index += 1;
    }
    assert(done + models.take(index as int) =~= all);
    Ok(())
}

/// Plans the archive of the tree at `root` from the content of its
/// `mimetype` file and the paths met while walking its directories.
///
/// The result is exactly [`planned_entries`]: the entries in the order of
/// the walk behind `mimetype`, or [`EpubError::UnsafeEntryName`] for a path
/// that does not lie under `root`, [`EpubError::Io`] for a file with more
/// content than the archive takes, or [`EpubError::Create`] for a name that
/// the archive would hold twice. A plan that is returned is valid and keeps
/// the order of the walk.
pub fn plan_archive(root: &str, mimetype: &[u8], nodes: &Vec<TreeNode>) -> (res: Result<
    Vec<ArchiveEntry>,
    EpubError,
>)
    ensures
        match planned_entries(root@, mimetype@, node_models(nodes@)) {
            Ok(plan) => res matches Ok(entries) && entry_models(entries@) == plan,
            Err(e) => res matches Err(x) && x == e,
        },
        res matches Ok(entries) ==> valid_plan(entry_models(entries@)) && entry_models(entries@)
            == seq![mimetype_entry(mimetype@)] + entries_of(root@, node_models(nodes@)),
{
    let ghost models = node_models(nodes@);
    let ghost none = Seq::<NodeModel>::empty();
    proof {
        assert(none + models =~= models);
        assert(models.take(0) =~= none);
    }
    let (mut entries, mut names) = match open_plan(mimetype) {
        Ok(opened) => opened,
        Err(e) => {
            proof {
                lemma_entries_failure_stays(root@, mimetype@, models, 0);
            }
            return Err(e);
        },
    };
    match plan_walk(root, nodes, &mut entries, &mut names, Ghost(mimetype@), Ghost(none)) {
        Ok(()) => {},
        Err(e) => {
            return Err(e);
        },
    }
    proof {
        lemma_plan_is_valid(root@, mimetype@, models);
        lemma_plan_keeps_the_order(root@, mimetype@, models);
    }
    Ok(entries)
}

/// Plans the archive of a package from the content of its `mimetype` file
/// and the two walks of its tree: that of the container descriptor and that
/// of the content, which [`tree_sources`] names in this order.
///
/// The result is exactly [`planned_entries`] of the first walk followed by
/// the second: `mimetype`, then the entries of the container descriptor in
/// the order of their walk, then those of the content in the order of
/// theirs, or the failure of the first of them that cannot be added. A plan
/// that is returned is valid.
pub fn plan_package(
    root: &str,
    mimetype: &[u8],
    container: &Vec<TreeNode>,
    content: &Vec<TreeNode>,
) -> (res: Result<Vec<ArchiveEntry>, EpubError>)
    ensures
        match planned_entries(root@, mimetype@, node_models(container@) + node_models(content@)) {
            Ok(plan) => res matches Ok(entries) && entry_models(entries@) == plan,
            Err(e) => res matches Err(x) && x == e,
        },
        res matches Ok(entries) ==> valid_plan(entry_models(entries@)) && entry_models(entries@)
            == seq![mimetype_entry(mimetype@)] + entries_of(root@, node_models(container@))
            + entries_of(root@, node_models(content@)),
{
    let ghost first = node_models(container@);
    let ghost second = node_models(content@);
    let ghost all = first + second;
    let ghost none = Seq::<NodeModel>::empty();
    proof {
        assert(none + first =~= first);
        assert(all.take(0) =~= none);
        assert(all.take(first.len() as int) =~= first);
    }
    let (mut entries, mut names) = match open_plan(mimetype) {
        Ok(opened) => opened,
        Err(e) => {
            proof {
                lemma_entries_failure_stays(root@, mimetype@, all, 0);
            }
            return Err(e);
        },
    };
    match plan_walk(root, container, &mut entries, &mut names, Ghost(mimetype@), Ghost(none)) {
        Ok(()) => {},
        Err(e) => {
            proof {
                lemma_entries_failure_stays(root@, mimetype@, all, first.len() as int);
            }
            return Err(e);
        },
    }
    match plan_walk(root, content, &mut entries, &mut names, Ghost(mimetype@), Ghost(first)) {
        Ok(()) => {},
        Err(e) => {
            return Err(e);
        },
    }
    proof {
        lemma_plan_is_valid(root@, mimetype@, all);
        lemma_plan_keeps_the_order(root@, mimetype@, all);
        lemma_entries_of_two_walks(root@, first, second);
        assert(seq![mimetype_entry(mimetype@)] + (entries_of(root@, first) + entries_of(
            root@,
            second,
        )) =~= seq![mimetype_entry(mimetype@)] + entries_of(root@, first) + entries_of(
            root@,
            second,
        ));
    }
    Ok(entries)
}

/// Tests whether a list of entries can be written as the archive of a
/// package: whether it begins with the file `mimetype`, records no name
/// twice and holds no file with more content than the archive takes.
pub fn is_valid_plan(entries: &Vec<ArchiveEntry>) -> (valid: bool)
    ensures
        valid == valid_plan(entry_models(entries@)),
{
    let ghost models = entry_models(entries@);
    if entries.len() == 0 {
        return false;
    }
    assert(models[0] == entries@[0]@);
    let first = match entries[0].kind {
        EntryKind::File => same_text(entries[0].name.as_str(), MIMETYPE),
        EntryKind::Directory => false,
    };
    if !first {
        return false;
    }
    let mut names: Vec<String> = Vec::new();
    let mut index: usize = 0;
    assert(models.take(0) =~= Seq::<EntryModel>::empty());
    while index < entries.len()
        invariant
            index <= entries.len(),
            models == entry_models(entries@),
            lists_names(names@, models.take(index as int)),
            distinct_names(recorded_all(models.take(index as int))),
            within_limit(recorded_all(models.take(index as int))),
        decreases entries.len() - index,
    {
        let ghost seen = models.take(index as int);
        let name = recorded_name(&entries[index]);
        proof {
            assert(models[index as int] == entries@[index as int]@);
            assert(models.take(index + 1) =~= seen.push(models[index as int]));
            assert(recorded_all(seen.push(models[index as int])) =~= recorded_all(seen).push(
                recorded(models[index as int]),
            ));
            lemma_listed_names(names@, seen, name@);
        }
        let fits = match entries[index].kind {
            EntryKind::File => entries[index].content.len() <= CONTENT_LIMIT,
            EntryKind::Directory => true,
        };
        if !fits {
            assert(recorded_all(models)[index as int].data.len() > CONTENT_LIMIT);
            return false;
        }
        if is_taken(&names, name.as_str()) {
            proof {
                let members = recorded_all(models);
                let i = choose|i: int|
                    0 <= i < recorded_all(seen).len() && #[trigger] recorded_all(seen)[i].name
                        == name@;
                assert(members[i].name == recorded_all(seen)[i].name);
                assert(members[index as int].name == name@);
            }
            return false;
        }
        proof {
            lemma_push_keeps_distinct(recorded_all(seen), recorded(models[index as int]));
        }
        names.push(name);
        index += 1;
    }
    assert(models.take(index as int) =~= models);
    true
}

/// Writes the entries, in their order, into one archive and returns its
/// bytes.
///
/// The result is exactly [`written_image`] of what the archive records for
/// the entries: its bytes, with the member `mimetype` first, where the codec
/// takes every entry and closes the archive, and [`EpubError::Io`] where it
/// does not.
pub fn write_archive(entries: &Vec<ArchiveEntry>) -> (res: Result<Vec<u8>, EpubError>)
    requires
        valid_plan(entry_models(entries@)),
    ensures
        match written_image(recorded_all(entry_models(entries@))) {
            Some(image) => res matches Ok(bytes) && bytes@ == image,
            None => res matches Err(e) && e == EpubError::Io,
        },
        recorded_all(entry_models(entries@))[0].name == MIMETYPE@,
{
    let ghost models = entry_models(entries@);
    let ghost members = recorded_all(models);
    let mut writer = ArchiveWriter::begin();
    let mut index: usize = 0;
    assert(members.take(0) =~= Seq::<Written>::empty());
    while index < entries.len()
        invariant
            index <= entries.len(),
            models == entry_models(entries@),
            members == recorded_all(models),
            valid_plan(models),
            writer@ == members.take(index as int),
            well_formed(writer@),
            forall|k: int| 0 <= k < index ==> takes(members.take(k), #[trigger] members[k]),
        decreases entries.len() - index,
    {
        let entry = &entries[index];
        proof {
            assert(models[index as int] == entry@);
            assert(members[index as int] == recorded(entry@));
            assert(members.take(index + 1) =~= members.take(index as int).push(recorded(entry@)));
            if holds_name(members.take(index as int), recorded(entry@).name) {
                let i = choose|i: int|
                    0 <= i < index && #[trigger] members.take(index as int)[i].name == recorded(
                        entry@,
                    ).name;
                assert(members[i].name == members[index as int].name);
            }
        }
        let added = match entry.kind {
            EntryKind::File => writer.add_file(
                entry.name.as_str(),
                entry.content.as_slice(),
                entry.permissions,
            ),
            EntryKind::Directory => writer.add_directory(entry.name.as_str(), entry.permissions),
        };
        if added.is_err() {
            assert(!takes(members.take(index as int), members[index as int]));
            return Err(EpubError::Io);
        }
        assert(takes(members.take(index as int), members[index as int]));
        index += 1;
    }
    assert(members.take(index as int) =~= members);
    writer.finish()
}

} // verus!
