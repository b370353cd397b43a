//! The stages of a run and the work that leads from one to the next.
//!
//! The caller does the work on the filesystem and reports how it went; the
//! functions here decide what is to be done and where that leaves the run.

use vstd::prelude::*;
use crate::error::EpubError;
use crate::manifest::{cover_file_name, cover_name};
use crate::paths::{join, joined, relative_to};
use crate::roundtrip::{below_root, lemma_walked_path_is_planned};
use crate::text::has_prefix;
use crate::writer::{
    entry_for, planned_entries, recorded, EntryKind, EntryModel, NodeModel, ENTRY_PERMISSIONS,
    OEBPS,
};

verus! {

/// The directory into which the package is unpacked, relative to the
/// working directory.
pub const SCRATCH_DIR: &'static str = "__extract_epub_tmp";

/// The file name of the package manifest inside the content directory.
pub const MANIFEST_NAME: &'static str = "book.opf";

/// What a run is asked to do.
#[derive(Debug, PartialEq, Eq)]
pub struct RepackConfig {
    /// The package, read at the start and overwritten at the end.
    pub epub: String,
    /// The cover image, which is copied into the package.
    pub image: String,
    /// The media subtype of the image, such as `jpeg` or `png`.
    pub media: String,
    /// Whether the scratch directory stays after the run.
    pub keep_tmp: bool,
}

/// A [`RepackConfig`] as plain values.
pub struct ConfigModel {
    pub epub: Seq<char>,
    pub image: Seq<char>,
    pub media: Seq<char>,
    pub keep_tmp: bool,
}

impl View for RepackConfig {
    type V = ConfigModel;

    open spec fn view(&self) -> ConfigModel {
        ConfigModel {
            epub: self.epub@,
            image: self.image@,
            media: self.media@,
            keep_tmp: self.keep_tmp,
        }
    }
}

/// How far a run has come.
#[derive(Clone, Copy, Debug, PartialEq, Eq, Structural)]
pub enum Stage {
    /// Nothing has been done.
    Start,
    /// The package has been unpacked into the scratch directory.
    Extracted,
    /// The manifest holds the cover declaration.
    ManifestEdited,
    /// The image lies in the content directory.
    ImageCopied,
    /// The package has been written anew.
    Rearchived,
    /// The scratch directory has been removed.
    Cleaned,
    /// The scratch directory has been left in place.
    Kept,
    /// The run has ended well.
    Done,
    /// The run has ended with a failure.
    Failed(EpubError),
}

/// The work that leads from one stage to the next.
#[derive(Debug, PartialEq, Eq)]
pub enum Action {
    /// Unpack the archive at `archive` into the directory `into`.
    Extract { archive: String, into: String },
    /// Add the cover declaration for `media` to the manifest at `manifest`.
    EditManifest { manifest: String, media: String },
    /// Copy the file at `from` to `to`, replacing what is there.
    CopyImage { from: String, to: String },
    /// Archive the tree at `tree` and write the archive to `output`.
    Rearchive { tree: String, output: String },
    /// Remove the directory `dir` with all that it holds.
    RemoveScratch { dir: String },
    /// Leave the directory `dir` as it is.
    KeepScratch { dir: String },
    /// Nothing is left to do but to end the run.
    Finish,
}

/// An [`Action`] as plain values.
pub enum ActionModel {
    Extract { archive: Seq<char>, into: Seq<char> },
    EditManifest { manifest: Seq<char>, media: Seq<char> },
    CopyImage { from: Seq<char>, to: Seq<char> },
    Rearchive { tree: Seq<char>, output: Seq<char> },
    RemoveScratch { dir: Seq<char> },
    KeepScratch { dir: Seq<char> },
    Finish,
}

impl View for Action {
    type V = ActionModel;

    open spec fn view(&self) -> ActionModel {
        match *self {
            Action::Extract { archive, into } => ActionModel::Extract {
                archive: archive@,
                into: into@,
            },
            Action::EditManifest { manifest, media } => ActionModel::EditManifest {
                manifest: manifest@,
                media: media@,
            },
            Action::CopyImage { from, to } => ActionModel::CopyImage { from: from@, to: to@ },
            Action::Rearchive { tree, output } => ActionModel::Rearchive {
                tree: tree@,
                output: output@,
            },
            Action::RemoveScratch { dir } => ActionModel::RemoveScratch { dir: dir@ },
            Action::KeepScratch { dir } => ActionModel::KeepScratch { dir: dir@ },
            Action::Finish => ActionModel::Finish,
        }
    }
}

/// The content directory inside the scratch directory.
pub open spec fn content_dir() -> Seq<char> {
    joined(SCRATCH_DIR@, OEBPS@)
}

/// The manifest inside the scratch directory.
pub open spec fn manifest_path() -> Seq<char> {
    joined(content_dir(), MANIFEST_NAME@)
}

/// Where the cover image of the given media subtype goes inside the scratch
/// directory.
pub open spec fn cover_path(media: Seq<char>) -> Seq<char> {
    joined(content_dir(), cover_name(media))
}

/// A run has ended: nothing follows this stage.
pub open spec fn is_final(stage: Stage) -> bool {
    stage is Done || stage is Failed
}

/// The work that leaves `stage`; a run that has ended has none.
pub open spec fn planned_action(stage: Stage, config: ConfigModel) -> Option<ActionModel> {
    match stage {
        Stage::Start => Some(
            ActionModel::Extract { archive: config.epub, into: SCRATCH_DIR@ },
        ),
        Stage::Extracted => Some(
            ActionModel::EditManifest { manifest: manifest_path(), media: config.media },
        ),
        Stage::ManifestEdited => Some(
            ActionModel::CopyImage { from: config.image, to: cover_path(config.media) },
        ),
        Stage::ImageCopied => Some(
            ActionModel::Rearchive { tree: SCRATCH_DIR@, output: config.epub },
        ),
        Stage::Rearchived => if config.keep_tmp {
            Some(ActionModel::KeepScratch { dir: SCRATCH_DIR@ })
        } else {
            Some(ActionModel::RemoveScratch { dir: SCRATCH_DIR@ })
        },
        Stage::Cleaned => Some(ActionModel::Finish),
        Stage::Kept => Some(ActionModel::Finish),
        Stage::Done => None,
        Stage::Failed(_) => None,
    }
}

/// The stage that follows `stage` when its work has gone well.
pub open spec fn successor(stage: Stage, keep_tmp: bool) -> Stage {
    match stage {
        Stage::Start => Stage::Extracted,
        Stage::Extracted => Stage::ManifestEdited,
        Stage::ManifestEdited => Stage::ImageCopied,
        Stage::ImageCopied => Stage::Rearchived,
        Stage::Rearchived => if keep_tmp {
            Stage::Kept
        } else {
            Stage::Cleaned
        },
        Stage::Cleaned => Stage::Done,
        Stage::Kept => Stage::Done,
        Stage::Done => Stage::Done,
        Stage::Failed(e) => Stage::Failed(e),
    }
}

/// The stage after the work of `stage` has been tried: its successor when
/// the work has gone well, failure with the error otherwise. A run that has
/// ended stays where it is.
pub open spec fn stage_after(stage: Stage, keep_tmp: bool, outcome: Result<(), EpubError>) -> Stage {
    if is_final(stage) {
        stage
    } else {
        match outcome {
            Ok(_) => successor(stage, keep_tmp),
            Err(e) => Stage::Failed(e),
        }
    }
}

/// The number of steps that a run at `stage` is away from its end when all
/// goes well.
pub open spec fn steps_left(stage: Stage) -> nat {
    match stage {
        Stage::Start => 6,
        Stage::Extracted => 5,
        Stage::ManifestEdited => 4,
        Stage::ImageCopied => 3,
        Stage::Rearchived => 2,
        Stage::Cleaned => 1,
        Stage::Kept => 1,
        Stage::Done => 0,
        Stage::Failed(_) => 0,
    }
}

/// Says what is to be done at `stage`.
pub fn next_action(stage: Stage, config: &RepackConfig) -> (action: Option<Action>)
    ensures
        match planned_action(stage, config@) {
            Some(planned) => action matches Some(a) && a@ == planned,
            None => action is None,
        },
        action is None <==> is_final(stage),
{
    match stage {
        Stage::Start => Some(
            Action::Extract { archive: config.epub.clone(), into: String::from_str(SCRATCH_DIR) },
        ),
        Stage::Extracted => {
            let content = join(SCRATCH_DIR, OEBPS);
            Some(
                Action::EditManifest {
                    manifest: join(content.as_str(), MANIFEST_NAME),
                    media: config.media.clone(),
                },
            )
        },
        Stage::ManifestEdited => {
            let content = join(SCRATCH_DIR, OEBPS);
            let name = cover_file_name(config.media.as_str());
            Some(
                Action::CopyImage {
                    from: config.image.clone(),
                    to: join(content.as_str(), name.as_str()),
                },
            )
        },
        Stage::ImageCopied => Some(
            Action::Rearchive { tree: String::from_str(SCRATCH_DIR), output: config.epub.clone() },
        ),
        Stage::Rearchived => if config.keep_tmp {
            Some(Action::KeepScratch { dir: String::from_str(SCRATCH_DIR) })
        } else {
            Some(Action::RemoveScratch { dir: String::from_str(SCRATCH_DIR) })
        },
        Stage::Cleaned => Some(Action::Finish),
        Stage::Kept => Some(Action::Finish),
        Stage::Done => None,
        Stage::Failed(_) => None,
    }
}

/// Moves a run on after the work of its stage has been tried.
///
/// Work that has gone well leads to the next stage, one step closer to the
/// end; work that has failed ends the run with the error.
pub fn advance(stage: Stage, keep_tmp: bool, outcome: Result<(), EpubError>) -> (next: Stage)
    ensures
        next == stage_after(stage, keep_tmp, outcome),
        !is_final(stage) && outcome is Ok ==> steps_left(next) + 1 == steps_left(stage),
        outcome is Err ==> is_final(next),
{
    match stage {
        Stage::Done => stage,
        Stage::Failed(_) => stage,
        _ => match outcome {
            Err(e) => Stage::Failed(e),
            Ok(_) => match stage {
                Stage::Start => Stage::Extracted,
                Stage::Extracted => Stage::ManifestEdited,
                Stage::ManifestEdited => Stage::ImageCopied,
                Stage::ImageCopied => Stage::Rearchived,
                Stage::Rearchived => if keep_tmp {
                    Stage::Kept
                } else {
                    Stage::Cleaned
                },
                _ => Stage::Done,
            },
        },
    }
}

/// The name of the cover image in the archive: the content directory, a
/// slash, and the name of the image.
pub open spec fn cover_entry_name(media: Seq<char>) -> Seq<char> {
    joined(OEBPS@, cover_name(media))
}

/// The place of the cover image lies below the scratch directory, under the
/// name that the image has in the archive.
pub proof fn lemma_cover_lies_in_the_tree(media: Seq<char>)
    ensures
        below_root(SCRATCH_DIR@, cover_path(media)),
        relative_to(SCRATCH_DIR@, cover_path(media)) == Some(cover_entry_name(media)),
{
    let root = SCRATCH_DIR@;
    let path = cover_path(media);
    let name = cover_entry_name(media);
    assert(path =~= root + seq!['/'] + name);
    assert(path.len() == root.len() + 1 + name.len());
    assert(name.len() >= 1);
    assert(path.subrange(0, root.len() as int + 1) =~= root + seq!['/']);
    assert(has_prefix(path, root + seq!['/']));
    assert(path.skip(root.len() as int + 1) =~= name);
}

/// Where the walk of the scratch directory meets the image that was copied
/// into it, the plan of the archive holds one file entry for it, named by
/// the media subtype and with the bytes of the image, and the archive
/// records it as a file under that name with those bytes. The result is the
/// place of the entry in the plan.
pub proof fn lemma_cover_is_archived(
    media: Seq<char>,
    image: Seq<u8>,
    mimetype: Seq<u8>,
    nodes: Seq<NodeModel>,
    j: int,
) -> (k: int)
    requires
        0 <= j < nodes.len(),
        nodes[j] == (NodeModel { path: cover_path(media), is_file: true, content: image }),
        planned_entries(SCRATCH_DIR@, mimetype, nodes) is Ok,
    ensures
        1 <= k < planned_entries(SCRATCH_DIR@, mimetype, nodes).unwrap().len(),
        planned_entries(SCRATCH_DIR@, mimetype, nodes).unwrap()[k] == (EntryModel {
            name: cover_entry_name(media),
            content: image,
            kind: EntryKind::File,
            permissions: ENTRY_PERMISSIONS,
        }),
        recorded(planned_entries(SCRATCH_DIR@, mimetype, nodes).unwrap()[k]).name
            == cover_entry_name(media),
        recorded(planned_entries(SCRATCH_DIR@, mimetype, nodes).unwrap()[k]).data == image,
        !recorded(planned_entries(SCRATCH_DIR@, mimetype, nodes).unwrap()[k]).directory,
{
    lemma_cover_lies_in_the_tree(media);
    let k = lemma_walked_path_is_planned(SCRATCH_DIR@, mimetype, nodes, j);
    assert(entry_for(SCRATCH_DIR@, nodes[j]) == Ok::<Option<EntryModel>, EpubError>(
        Some(
            EntryModel {
                name: cover_entry_name(media),
                content: image,
                kind: EntryKind::File,
                permissions: ENTRY_PERMISSIONS,
            },
        ),
    ));
    k
}

} // verus!
