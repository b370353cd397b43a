//! Reading an archive: from its members to the steps that unpack it.

use vstd::prelude::*;
use crate::codec::{
    archive_len, archive_members, archive_open, archive_source, member_enclosed_name, member_name,
    member_open, member_read, stored_members, Member,
};
use crate::error::EpubError;
use crate::paths::{
    confined, is_confined, is_directory_name, join, joined, leads_under, lemma_confined_stays_under,
    location, names_directory, parent_dir, parent_of,
};

verus! {

/// One thing to do on the filesystem when an archive is unpacked.
#[derive(Debug, PartialEq, Eq)]
pub enum ExtractStep {
    /// Create the directory at `path`, with every missing ancestor.
    CreateDir { path: String },
    /// Make sure that the directory `parent` exists, then create the file at
    /// `path` with the content `data`.
    WriteFile { path: String, parent: String, data: Vec<u8> },
}

/// An [`ExtractStep`] as plain values.
pub enum StepModel {
    CreateDir { path: Seq<char> },
    WriteFile { path: Seq<char>, parent: Seq<char>, data: Seq<u8> },
}

impl StepModel {
    /// The path that the step creates.
    pub open spec fn target(self) -> Seq<char> {
        match self {
            StepModel::CreateDir { path } => path,
            StepModel::WriteFile { path, .. } => path,
        }
    }
}

impl View for ExtractStep {
    type V = StepModel;

    open spec fn view(&self) -> StepModel {
        match *self {
            ExtractStep::CreateDir { path } => StepModel::CreateDir { path: path@ },
            ExtractStep::WriteFile { path, parent, data } => StepModel::WriteFile {
                path: path@,
                parent: parent@,
                data: data@,
            },
        }
    }
}

/// The steps of a list, as plain values.
pub open spec fn step_models(steps: Seq<ExtractStep>) -> Seq<StepModel> {
    steps.map_values(|s: ExtractStep| s@)
}

/// A member is unpacked when the reader accepts its name as enclosed and the
/// name is confined; every other member is passed over in silence.
pub open spec fn kept(m: Member) -> bool {
    m.enclosed && confined(m.name)
}

/// The plan after one more member: an unreadable member fails it, a member
/// that is not kept leaves it as it is, a directory name adds a directory,
/// and any other name adds a file with the member's content.
pub open spec fn extend_plan(dest: Seq<char>, steps: Seq<StepModel>, m: Option<Member>) -> Result<
    Seq<StepModel>,
    EpubError,
> {
    match m {
        None => Err(EpubError::Io),
        Some(m) => if !kept(m) {
            Ok(steps)
        } else if names_directory(m.name) {
            Ok(steps.push(StepModel::CreateDir { path: joined(dest, m.name) }))
        } else {
            match m.data {
                None => Err(EpubError::Io),
                Some(data) => Ok(
                    steps.push(
                        StepModel::WriteFile {
                            path: joined(dest, m.name),
                            parent: parent_dir(joined(dest, m.name)),
                            data,
                        },
                    ),
                ),
            }
        },
    }
}

/// The steps that unpack `members` into `dest`, member by member in archive
/// order, or the failure of the first member that cannot be read.
pub open spec fn extraction_plan(dest: Seq<char>, members: Seq<Option<Member>>) -> Result<
    Seq<StepModel>,
    EpubError,
>
    decreases members.len(),
{
    if members.len() == 0 {
        Ok(Seq::empty())
    } else {
        match extraction_plan(dest, members.drop_last()) {
            Err(e) => Err(e),
            Ok(steps) => extend_plan(dest, steps, members.last()),
        }
    }
}

/// A plan that has failed on the first `k` members fails in the same way on
/// all of them.
pub proof fn lemma_plan_failure_stays(dest: Seq<char>, members: Seq<Option<Member>>, k: int)
    requires
        0 <= k <= members.len(),
        extraction_plan(dest, members.take(k)) is Err,
    ensures
        extraction_plan(dest, members) == extraction_plan(dest, members.take(k)),
    decreases members.len() - k,
{
    if k < members.len() {
        assert(members.take(k + 1).drop_last() =~= members.take(k));
        lemma_plan_failure_stays(dest, members, k + 1);
    } else {
        assert(members.take(k) =~= members);
    }
}

/// The path is `dest` joined with a confined name.
pub open spec fn confined_under(dest: Seq<char>, path: Seq<char>) -> bool {
    exists|name: Seq<char>| #[trigger] confined(name) && path == joined(dest, name)
}

/// Every step creates a path that is `dest` joined with a confined name.
pub open spec fn all_confined(dest: Seq<char>, steps: Seq<StepModel>) -> bool {
    forall|i: int| 0 <= i < steps.len() ==> confined_under(dest, #[trigger] steps[i].target())
}

/// Every step creates a path at or below `dest`.
pub open spec fn all_under(dest: Seq<char>, steps: Seq<StepModel>) -> bool {
    forall|i: int|
        0 <= i < steps.len() ==> leads_under(location(#[trigger] steps[i].target()), location(dest))
}

/// Every step of a plan creates a path that is the destination joined with
/// a confined name, and so a path at or below the destination: no archive,
/// whatever names it stores, is unpacked outside of it.
pub proof fn lemma_plan_stays_under(dest: Seq<char>, members: Seq<Option<Member>>)
    ensures
        extraction_plan(dest, members) matches Ok(steps) ==> all_confined(dest, steps)
            && all_under(dest, steps),
    decreases members.len(),
{
    if members.len() > 0 {
        lemma_plan_stays_under(dest, members.drop_last());
        match (extraction_plan(dest, members.drop_last()), members.last()) {
            (Ok(steps), Some(m)) => {
                if kept(m) {
                    lemma_confined_stays_under(dest, m.name);
                    assert(confined_under(dest, joined(dest, m.name)));
                }
            },
            _ => {},
        }
    }
}

/// An archive opened for reading.
pub struct ArchiveReader {
    archive: zip::ZipArchive<std::io::Cursor<Vec<u8>>>,
}

impl ArchiveReader {
    /// The members of the archive, in archive order; `None` stands for a
    /// member that cannot be opened.
    pub closed spec fn members(&self) -> Seq<Option<Member>> {
        archive_members(self.archive)
    }

    /// Opens the archive held in `bytes`. Where the codec finds an archive
    /// in them, the reader holds its members and reads from the bytes;
    /// where it finds none, the error is [`EpubError::Open`].
    pub fn open(bytes: Vec<u8>) -> (res: Result<ArchiveReader, EpubError>)
        ensures
            match stored_members(bytes@) {
                Some(members) => res matches Ok(reader) && reader.members() == members
                    && reader.source() == bytes@,
                None => res matches Err(e) && e == EpubError::Open,
            },
    {
        match archive_open(bytes) {
            Ok(archive) => Ok(ArchiveReader { archive }),
            Err(_) => Err(EpubError::Open),
        }
    }

    /// The bytes that the reader reads from.
    pub closed spec fn source(&self) -> Seq<u8> {
        archive_source(self.archive)
    }

    /// The number of members.
    pub fn entry_count(&self) -> (n: usize)
        ensures
            n == self.members().len(),
    {
        archive_len(&self.archive)
    }

    /// Plans the unpacking of every member into the directory `dest`.
    ///
    /// The result is exactly [`extraction_plan`] of the members: the steps in
    /// archive order, without the members whose names are not safe, or
    /// [`EpubError::Io`] at the first member that cannot be read. Every
    /// planned path is `dest` joined with a confined name, and so lies at or
    /// below `dest`.
    pub fn extract_all(&mut self, dest: &str) -> (res: Result<Vec<ExtractStep>, EpubError>)
        ensures
            final(self).members() == old(self).members(),
            final(self).source() == old(self).source(),
            match extraction_plan(dest@, old(self).members()) {
                Ok(plan) => res matches Ok(steps) && step_models(steps@) == plan,
                Err(e) => res matches Err(x) && x == e,
            },
            res matches Ok(steps) ==> all_confined(dest@, step_models(steps@)) && all_under(
                dest@,
                step_models(steps@),
            ),
    {
        let ghost members = self.members();
        let count = archive_len(&self.archive);
        let mut steps: Vec<ExtractStep> = Vec::new();
        let mut index: usize = 0;
        assert(members.take(0) =~= Seq::<Option<Member>>::empty());
        assert(step_models(steps@) =~= Seq::<StepModel>::empty());
        while index < count
            invariant
                index <= count,
                count == members.len(),
                members == old(self).members(),
                self.members() == members,
                self.source() == old(self).source(),
                extraction_plan(dest@, members.take(index as int)) == Ok::<
                    Seq<StepModel>,
                    EpubError,
                >(step_models(steps@)),
            decreases count - index,
        {
            let ghost before = steps@;
            proof {
                assert(members.take(index + 1).drop_last() =~= members.take(index as int));
                assert(members.take(index + 1).last() == members[index as int]);
            }
            match member_open(&mut self.archive, index) {
                None => {
                    proof {
                        lemma_plan_failure_stays(dest@, members, index + 1);
                    }
                    return Err(EpubError::Io);
                },
                Some(file) => {
                    let name = member_name(&file);
                    match member_enclosed_name(&file) {
                        None => {},
                        Some(inner) => {
                            if is_confined(inner.as_str()) {
                                let path = join(dest, inner.as_str());
                                if is_directory_name(name.as_str()) {
                                    steps.push(ExtractStep::CreateDir { path });
                                } else {
                                    match member_read(file) {
                                        None => {
                                            proof {
                                                lemma_plan_failure_stays(dest@, members, index + 1);
                                            }
                                            return Err(EpubError::Io);
                                        },
                                        Some(data) => {
                                            let parent = parent_of(path.as_str());
                                            steps.push(ExtractStep::WriteFile { path, parent, data });
                                        },
                                    }
                                }
                                assert(step_models(steps@) =~= step_models(before).push(
                                    steps@.last()@,
                                ));
                            }
                        },
                    }
                },
            }
            index += 1;
        }
        proof {
            assert(members.take(count as int) =~= members);
            lemma_plan_stays_under(dest@, members);
        }
        Ok(steps)
    }
}

} // verus!
