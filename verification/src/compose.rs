//! Composition: which files an archive gets, at which paths inside it, from
//! which files on disk, and in which order.

use vstd::prelude::*;
use crate::manifest::{
    entry_items, items, lemma_items_concat, Archive, ArchiveView, EntryView, FileMapping,
    FileMappingView, Item,
};
use crate::path::{archive_path, archive_prefix, file_name, final_name, join_path, normalize};

verus! {

/// How the bytes of a file are kept in the archive.
#[derive(Clone, Copy, PartialEq, Eq, Debug)]
pub enum Compression {
    /// As they are, without deflation.
    Stored,
}

/// The options with which a file of the archive is started.
#[derive(Clone, Copy, PartialEq, Eq, Debug)]
pub struct EntryOptions {
    pub compression: Compression,
    /// The permission bits of the file on Unix.
    pub unix_mode: u32,
}

/// The permission bits that every file of an archive gets: read and write
/// for the owner, read for the others.
pub const UNIX_MODE: u32 = 0o644;

/// Every file of an archive is stored without deflation, with the mode
/// `UNIX_MODE`.
pub open spec fn fixed_options() -> EntryOptions {
    EntryOptions { compression: Compression::Stored, unix_mode: UNIX_MODE }
}

/// The options of every file of an archive.
pub fn entry_options() -> (r: EntryOptions)
    ensures
        r == fixed_options(),
{
    EntryOptions { compression: Compression::Stored, unix_mode: UNIX_MODE }
}

/// Why an archive cannot be planned.
#[derive(Clone, Copy, PartialEq, Eq, Debug)]
pub enum PlanError {
    /// A mapping is a pattern. How a pattern is matched against the disk is
    /// not settled, so no archive is planned from one.
    GlobUnsupported,
    /// The path that names a file in the archive has no final name: it is
    /// empty, a root, or ends in `.` or `..`.
    MissingFileName,
}

/// One file of an archive: its path inside the archive, the file on disk
/// that gives its bytes, and the options it is started with.
#[derive(Clone, PartialEq, Eq, Debug)]
pub struct Placement {
    pub path: String,
    pub source: String,
    pub options: EntryOptions,
}

/// A placement as a mathematical value.
pub struct PlacementView {
    pub path: Seq<char>,
    pub source: Seq<char>,
    pub options: EntryOptions,
}

impl View for Placement {
    type V = PlacementView;

    open spec fn view(&self) -> PlacementView {
        PlacementView { path: self.path@, source: self.source@, options: self.options }
    }
}

/// What building one archive does, in order: the output file is created at
/// `output`, each placement is written, and the archive is finished.
#[derive(Clone, PartialEq, Eq, Debug)]
pub struct ArchivePlan {
    pub output: String,
    pub placements: Vec<Placement>,
}

/// A plan as a mathematical value.
pub struct PlanView {
    pub output: Seq<char>,
    pub placements: Seq<PlacementView>,
}

impl View for ArchivePlan {
    type V = PlanView;

    open spec fn view(&self) -> PlanView {
        PlanView {
            output: self.output@,
            placements: self.placements@.map_values(|p: Placement| p@),
        }
    }
}

/// Where a mapping under `dest_dir` puts its file. The file is named by the
/// final name of the source, or of the destination where one is given.
pub open spec fn placement(dest_dir: Seq<char>, m: FileMappingView) -> Result<
    PlacementView,
    PlanError,
> {
    match m.naming_path() {
        None => Err(PlanError::GlobUnsupported),
        Some(naming) => match file_name(naming) {
            None => Err(PlanError::MissingFileName),
            Some(name) => Ok(
                PlacementView {
                    path: archive_path(dest_dir, name),
                    source: m.source().unwrap(),
                    options: fixed_options(),
                },
            ),
        },
    }
}

/// The placements of the items in order, or the error of the first item that
/// cannot be placed.
pub open spec fn placements(its: Seq<Item>) -> Result<Seq<PlacementView>, PlanError>
    decreases its.len(),
{
    if its.len() == 0 {
        Ok(Seq::empty())
    } else {
        match placements(its.drop_last()) {
            Err(e) => Err(e),
            Ok(ps) => match placement(its.last().0, its.last().1) {
                Err(e) => Err(e),
                Ok(p) => Ok(ps.push(p)),
            },
        }
    }
}

/// The plan of an archive.
pub open spec fn plan_of(a: ArchiveView) -> Result<PlanView, PlanError> {
    match placements(items(a.entries)) {
        Err(e) => Err(e),
        Ok(ps) => Ok(PlanView { output: a.filename, placements: ps }),
    }
}

/// An item that cannot be placed fails every list that continues beyond it.
pub proof fn lemma_placements_error_persists(a: Seq<Item>, b: Seq<Item>)
    requires
        placements(a) is Err,
    ensures
        placements(a + b) == placements(a),
    decreases b.len(),
{
    if b.len() == 0 {
        assert(a + b =~= a);
    } else {
        assert((a + b).drop_last() =~= a + b.drop_last());
        lemma_placements_error_persists(a, b.drop_last());
    }
}

/// A plan has one placement for each mapping, in the order of the mappings,
/// and there is a plan exactly where every mapping can be placed.
pub proof fn lemma_placements_pointwise(its: Seq<Item>)
    ensures
        placements(its) is Ok <==> forall|k: int|
            0 <= k < its.len() ==> placement((#[trigger] its[k]).0, its[k].1) is Ok,
        placements(its) matches Ok(ps) ==> ps.len() == its.len() && forall|k: int|
            0 <= k < its.len() ==> placement((#[trigger] its[k]).0, its[k].1) == Ok::<
                PlacementView,
                PlanError,
            >(ps[k]),
    decreases its.len(),
{
    if its.len() > 0 {
        let front = its.drop_last();
        lemma_placements_pointwise(front);
        if placements(its) is Ok {
            let ps = placements(its)->Ok_0;
            let front_ps = placements(front)->Ok_0;
            assert forall|k: int| 0 <= k < its.len() implies placement(
                (#[trigger] its[k]).0,
                its[k].1,
            ) == Ok::<PlacementView, PlanError>(ps[k]) by {
                if k < front.len() {
                    assert(front[k] == its[k]);
                    assert(ps[k] == front_ps[k]);
                }
            }
        }
        if forall|k: int| 0 <= k < its.len() ==> placement((#[trigger] its[k]).0, its[k].1) is Ok {
            assert forall|k: int| 0 <= k < front.len() implies placement(
                (#[trigger] front[k]).0,
                front[k].1,
            ) is Ok by {
                assert(front[k] == its[k]);
            }
            assert(placement(its[its.len() - 1].0, its[its.len() - 1].1) is Ok);
        }
    }
}

/// Planning fails with the error of the first mapping that cannot be placed.
pub proof fn lemma_placements_first_failure(its: Seq<Item>, k: int)
    requires
        0 <= k < its.len(),
        placement(its[k].0, its[k].1) is Err,
        forall|h: int| 0 <= h < k ==> placement((#[trigger] its[h]).0, its[h].1) is Ok,
    ensures
        placements(its) matches Err(e) && placement(its[k].0, its[k].1) == Err::<
            PlacementView,
            PlanError,
        >(e),
{
    let upto = its.take(k + 1);
    let front = its.take(k);
    assert forall|h: int| 0 <= h < front.len() implies placement(
        (#[trigger] front[h]).0,
        front[h].1,
    ) is Ok by {
        assert(front[h] == its[h]);
    }
    lemma_placements_pointwise(front);
    assert(upto.drop_last() =~= front);
    assert(upto.last() == its[k]);
    lemma_placements_error_persists(upto, its.skip(k + 1));
    assert(its =~= upto + its.skip(k + 1));
}

/// The archive that holds a single mapping, a source with a destination,
/// under `dest_dir`.
pub open spec fn single_renamed(
    filename: Seq<char>,
    dest_dir: Seq<char>,
    src: Seq<char>,
    dest: Seq<char>,
) -> ArchiveView {
    ArchiveView {
        filename,
        entries: seq![
            EntryView {
                dest_dir,
                files: seq![FileMappingView::SourceWithDestination { src, dest }],
            },
        ],
    }
}

/// A source with a destination, alone in its archive, gives exactly one
/// placement: it reads `src`, and its path is the final name of `dest` under
/// the prefix that `dest_dir` stands for. Where that prefix is not empty and
/// does not end in `/`, the path is the prefix, a `/` and the name.
pub proof fn lemma_renamed_source_plan(
    filename: Seq<char>,
    dest_dir: Seq<char>,
    src: Seq<char>,
    dest: Seq<char>,
)
    requires
        file_name(dest) is Some,
    ensures
        plan_of(single_renamed(filename, dest_dir, src, dest)) == Ok::<PlanView, PlanError>(
            PlanView {
                output: filename,
                placements: seq![
                    PlacementView {
                        path: archive_path(dest_dir, file_name(dest).unwrap()),
                        source: src,
                        options: fixed_options(),
                    },
                ],
            },
        ),
        normalize(dest_dir).len() > 0 && normalize(dest_dir).last() != '/' ==> archive_path(
            dest_dir,
            file_name(dest).unwrap(),
        ) == normalize(dest_dir) + seq!['/'] + file_name(dest).unwrap(),
{
    let a = single_renamed(filename, dest_dir, src, dest);
    let m = FileMappingView::SourceWithDestination { src, dest };
    let its = items(a.entries);
    assert(a.entries.drop_last() =~= Seq::<EntryView>::empty());
    assert(items(a.entries.drop_last()) =~= Seq::<Item>::empty());
    assert(its =~= seq![(dest_dir, m)]);
    assert(its.drop_last() =~= Seq::<Item>::empty());
    assert(placements(its.drop_last()) == Ok::<Seq<PlacementView>, PlanError>(Seq::empty()));
    let p = placement(dest_dir, m)->Ok_0;
    assert(Seq::<PlacementView>::empty().push(p) =~= seq![p]);
    crate::path::lemma_file_name_is_name(dest);
    let n = file_name(dest).unwrap();
    assert(n[0] != '/');
}

/// Where `mapping` puts its file under the prefix that `dest_dir` stands for.
pub fn place_under(dest_dir: &str, mapping: &FileMapping) -> (r: Result<Placement, PlanError>)
    ensures
        match r {
            Ok(p) => placement(dest_dir@, mapping@) == Ok::<PlacementView, PlanError>(p@),
            Err(e) => placement(dest_dir@, mapping@) == Err::<PlacementView, PlanError>(e),
        },
{
    let prefix = archive_prefix(dest_dir);
    place_with_prefix(prefix.as_str(), mapping, Ghost(dest_dir@))
}

fn place_with_prefix(prefix: &str, mapping: &FileMapping, Ghost(dest_dir): Ghost<Seq<char>>) -> (r:
    Result<Placement, PlanError>)
    requires
        prefix@ == normalize(dest_dir),
    ensures
        match r {
            Ok(p) => placement(dest_dir, mapping@) == Ok::<PlacementView, PlanError>(p@),
            Err(e) => placement(dest_dir, mapping@) == Err::<PlacementView, PlanError>(e),
        },
{
    match mapping {
        FileMapping::Glob(_) => Err(PlanError::GlobUnsupported),
        FileMapping::Source(s) => match final_name(s.as_str()) {
            None => Err(PlanError::MissingFileName),
            Some(name) => Ok(
                Placement {
                    path: join_path(prefix, name.as_str()),
                    source: s.clone(),
                    options: entry_options(),
                },
            ),
        },
        FileMapping::SourceWithDestination { src, dest } => match final_name(dest.as_str()) {
            None => Err(PlanError::MissingFileName),
            Some(name) => Ok(
                Placement {
                    path: join_path(prefix, name.as_str()),
                    source: src.clone(),
                    options: entry_options(),
                },
            ),
        },
    }
}

/// Plans the archive: one placement for each mapping, entry by entry and
/// mapping by mapping. Nothing is planned if a mapping cannot be placed.
pub fn plan(archive: &Archive) -> (r: Result<ArchivePlan, PlanError>)
    ensures
        match r {
            Ok(p) => plan_of(archive@) == Ok::<PlanView, PlanError>(p@),
            Err(e) => plan_of(archive@) == Err::<PlanView, PlanError>(e),
        },
{
    let ghost entries = archive@.entries;
    let mut out: Vec<Placement> = Vec::new();
    let mut i: usize = 0;
    proof {
        assert(entries.take(0) =~= Seq::<EntryView>::empty());
        assert(out@.map_values(|p: Placement| p@) =~= Seq::<PlacementView>::empty());
    }
    while i < archive.entries.len()
        invariant
            i <= archive.entries.len(),
            entries == archive@.entries,
            placements(items(entries.take(i as int))) == Ok::<Seq<PlacementView>, PlanError>(
                out@.map_values(|p: Placement| p@),
            ),
        decreases archive.entries.len() - i,
    {
        let entry = &archive.entries[i];
        let prefix = archive_prefix(entry.dest_dir.as_str());
        let ghost done = items(entries.take(i as int));
        let ghost here = entry_items(entry@);
        assert(entry@ == entries[i as int]);
        let mut j: usize = 0;
        assert(done + here.take(0) =~= done);
        while j < entry.files.len()
            invariant
                j <= entry.files.len(),
                i < archive.entries.len(),
                entries == archive@.entries,
                entry@ == entries[i as int],
                here == entry_items(entry@),
                done == items(entries.take(i as int)),
                prefix@ == normalize(entry.dest_dir@),
                placements(done + here.take(j as int)) == Ok::<Seq<PlacementView>, PlanError>(
                    out@.map_values(|p: Placement| p@),
                ),
            decreases entry.files.len() - j,
        {
            let ghost before = done + here.take(j as int);
            let ghost next = done + here.take(j + 1);
            proof {
                assert(next.drop_last() =~= before);
                assert(next.last() == (entry@.dest_dir, entry.files[j as int]@));
            }
            match place_with_prefix(prefix.as_str(), &entry.files[j], Ghost(entry.dest_dir@)) {
                Err(e) => {
                    proof {
                        assert(placements(next) == Err::<Seq<PlacementView>, PlanError>(e));
                        let rest_here = here.skip(j + 1);
                        let rest = entries.skip(i + 1);
                        assert(entries =~= entries.take(i as int) + seq![entries[i as int]]
                            + rest);
                        lemma_items_concat(entries.take(i as int), seq![entries[i as int]]);
                        lemma_items_concat(
                            entries.take(i as int) + seq![entries[i as int]],
                            rest,
                        );
                        assert(seq![entries[i as int]].drop_last() =~= Seq::<EntryView>::empty());
                        assert(items(Seq::<EntryView>::empty()) =~= Seq::<Item>::empty());
                        assert(seq![entries[i as int]].last() == entries[i as int]);
                        assert(items(seq![entries[i as int]]) =~= here);
                        assert(here =~= here.take(j + 1) + rest_here);
                        assert(items(entries) =~= next + (rest_here + items(rest)));
                        lemma_placements_error_persists(next, rest_here + items(rest));
                    }
                    return Err(e);
                },
                Ok(p) => {
                    let ghost old_out = out@.map_values(|p: Placement| p@);
                    out.push(p);
                    assert(out@.map_values(|p: Placement| p@) =~= old_out.push(p@));
                },
            }
            j = j + 1;
        }
        proof {
            assert(here.take(j as int) =~= here);
            assert(entries.take(i + 1).drop_last() =~= entries.take(i as int));
            assert(entries.take(i + 1).last() == entries[i as int]);
        }
        i = i + 1;
    }
    assert(entries.take(i as int) =~= entries);
    Ok(ArchivePlan { output: archive.filename.clone(), placements: out })
}

} // verus!
