//! Validation: whether the disk holds what an archive needs, found without
//! writing anything.
//!
//! Validation looks at a list of probes, one after the other: first the
//! directory of the output file, then the source of each mapping. It stops
//! at the first probe that fails.

use vstd::prelude::*;
use crate::manifest::{items, Archive, ArchiveView, FileMapping, FileMappingView, Item, Manifest, ManifestView};
use crate::path::{parent, parent_dir};

verus! {

/// The kinds of I/O error, `std::io::ErrorKind`, with the variants that std
/// gives them. Nothing is claimed of them.
#[verifier::external_type_specification]
pub struct ExErrorKind(std::io::ErrorKind);

/// Why an archive cannot be built from what is on disk.
#[derive(Clone, Copy, PartialEq, Eq, Debug)]
pub enum ValidationError {
    /// The directory of the output file is not there.
    OutputDirectoryMissing,
    /// The source of a mapping is not there.
    SourceMissing,
    /// A mapping is a pattern. How a pattern is matched against the disk is
    /// not settled, so a pattern is never taken as valid.
    GlobUnsupported,
}

impl ValidationError {
    /// The kind of I/O error that stands for this error: what is missing is
    /// not found, a pattern is unsupported.
    pub open spec fn spec_kind(self) -> std::io::ErrorKind {
        match self {
            ValidationError::OutputDirectoryMissing => std::io::ErrorKind::NotFound,
            ValidationError::SourceMissing => std::io::ErrorKind::NotFound,
            ValidationError::GlobUnsupported => std::io::ErrorKind::Unsupported,
        }
    }

    /// The kind of I/O error that stands for this error.
    pub fn kind(&self) -> (k: std::io::ErrorKind)
        ensures
            k == self.spec_kind(),
    {
        match self {
            ValidationError::OutputDirectoryMissing => std::io::ErrorKind::NotFound,
            ValidationError::SourceMissing => std::io::ErrorKind::NotFound,
            ValidationError::GlobUnsupported => std::io::ErrorKind::Unsupported,
        }
    }

    /// The error in words.
    pub fn message(&self) -> (m: String)
        ensures
            m@ == (match self {
                ValidationError::OutputDirectoryMissing => "The output directory does not exist"@,
                ValidationError::SourceMissing => "The source does not exist"@,
                ValidationError::GlobUnsupported => "Glob patterns are not supported"@,
            }),
    {
        match self {
            ValidationError::OutputDirectoryMissing => "The output directory does not exist".to_owned(),
            ValidationError::SourceMissing => "The source does not exist".to_owned(),
            ValidationError::GlobUnsupported => "Glob patterns are not supported".to_owned(),
        }
    }
}

/// One thing that validation looks at.
#[derive(Clone, PartialEq, Eq, Debug)]
pub enum Probe {
    /// The directory that the output file is created in.
    OutputDir(String),
    /// The file on disk that a mapping reads.
    Source(String),
    /// A mapping that is a pattern.
    Glob(String),
}

/// A probe as a mathematical value.
pub enum ProbeView {
    OutputDir(Seq<char>),
    Source(Seq<char>),
    Glob(Seq<char>),
}

impl View for Probe {
    type V = ProbeView;

    open spec fn view(&self) -> ProbeView {
        match self {
            Probe::OutputDir(d) => ProbeView::OutputDir(d@),
            Probe::Source(s) => ProbeView::Source(s@),
            Probe::Glob(p) => ProbeView::Glob(p@),
        }
    }
}

impl ProbeView {
    /// The path, or the pattern, that the probe holds.
    pub open spec fn path(self) -> Seq<char> {
        match self {
            ProbeView::OutputDir(d) => d,
            ProbeView::Source(s) => s,
            ProbeView::Glob(p) => p,
        }
    }

    /// What a probe comes to when its path was found on disk, or was not.
    /// A pattern fails either way.
    pub open spec fn judge(self, found: bool) -> Result<(), ValidationError> {
        match self {
            ProbeView::OutputDir(_) => if found {
                Ok(())
            } else {
                Err(ValidationError::OutputDirectoryMissing)
            },
            ProbeView::Source(_) => if found {
                Ok(())
            } else {
                Err(ValidationError::SourceMissing)
            },
            ProbeView::Glob(_) => Err(ValidationError::GlobUnsupported),
        }
    }
}

impl Probe {
    /// The path, or the pattern, that the probe holds.
    pub fn path(&self) -> (p: &String)
        ensures
            p@ == self@.path(),
    {
        match self {
            Probe::OutputDir(d) => d,
            Probe::Source(s) => s,
            Probe::Glob(p) => p,
        }
    }

    /// What the probe comes to when its path was found on disk, or was not.
    pub fn judge(&self, found: bool) -> (r: Result<(), ValidationError>)
        ensures
            r == self@.judge(found),
    {
        match self {
            Probe::OutputDir(_) => if found {
                Ok(())
            } else {
                Err(ValidationError::OutputDirectoryMissing)
            },
            Probe::Source(_) => if found {
                Ok(())
            } else {
                Err(ValidationError::SourceMissing)
            },
            Probe::Glob(_) => Err(ValidationError::GlobUnsupported),
        }
    }
}

/// The probe for the directory of the output file `filename`. There is none
/// where the file name has no directory, or an empty one.
pub open spec fn output_probes(filename: Seq<char>) -> Seq<ProbeView> {
    match parent(filename) {
        Some(dir) => if dir.len() > 0 {
            seq![ProbeView::OutputDir(dir)]
        } else {
            Seq::empty()
        },
        None => Seq::empty(),
    }
}

/// The probe for a mapping: its source, or the pattern itself.
pub open spec fn mapping_probe(m: FileMappingView) -> ProbeView {
    match m {
        FileMappingView::Source(s) => ProbeView::Source(s),
        FileMappingView::SourceWithDestination { src, dest } => ProbeView::Source(src),
        FileMappingView::Glob(p) => ProbeView::Glob(p),
    }
}

/// The probes for the mappings of `its`, in order.
pub open spec fn item_probes(its: Seq<Item>) -> Seq<ProbeView> {
    Seq::new(its.len(), |k: int| mapping_probe(its[k].1))
}

/// The probes of an archive: the directory of its output file, then its
/// mappings, entry by entry.
pub open spec fn probes(a: ArchiveView) -> Seq<ProbeView> {
    output_probes(a.filename) + item_probes(items(a.entries))
}

/// The probes of the archives of a manifest, archive by archive.
pub open spec fn manifest_probes(slots: Seq<(Seq<char>, ArchiveView)>) -> Seq<ProbeView>
    decreases slots.len(),
{
    if slots.len() == 0 {
        Seq::empty()
    } else {
        manifest_probes(slots.drop_last()) + probes(slots.last().1)
    }
}

/// What the probes come to, given for each whether its path was found: the
/// error of the first probe that fails, and success if none does.
pub open spec fn verdict(ps: Seq<ProbeView>, answers: Seq<bool>) -> Result<(), ValidationError>
    recommends
        answers.len() == ps.len(),
    decreases ps.len(),
{
    if ps.len() == 0 {
        Ok(())
    } else {
        match verdict(ps.drop_last(), answers.drop_last()) {
            Err(e) => Err(e),
            Ok(_) => ps.last().judge(answers.last()),
        }
    }
}

/// For each probe, whether its path is among the paths `present`.
pub open spec fn observe(ps: Seq<ProbeView>, present: Set<Seq<char>>) -> Seq<bool> {
    Seq::new(ps.len(), |k: int| present.contains(ps[k].path()))
}

/// What validation of an archive comes to where exactly the paths `present`
/// are on disk.
pub open spec fn validate(a: ArchiveView, present: Set<Seq<char>>) -> Result<(), ValidationError> {
    verdict(probes(a), observe(probes(a), present))
}

/// What validation of a whole manifest comes to where exactly the paths
/// `present` are on disk.
pub open spec fn validate_all(m: ManifestView, present: Set<Seq<char>>) -> Result<
    (),
    ValidationError,
> {
    verdict(manifest_probes(m.slots), observe(manifest_probes(m.slots), present))
}

/// The paths that a listing holds.
pub open spec fn listed(listing: Seq<String>) -> Set<Seq<char>> {
    Set::new(|p: Seq<char>| exists|k: int| 0 <= k < listing.len() && (#[trigger] listing[k])@ == p)
}

/// The verdict on two runs of probes, one after the other, is the verdict on
/// the first where that fails, and else the verdict on the second.
pub proof fn lemma_verdict_concat(
    front: Seq<ProbeView>,
    front_answers: Seq<bool>,
    back: Seq<ProbeView>,
    back_answers: Seq<bool>,
)
    requires
        front_answers.len() == front.len(),
        back_answers.len() == back.len(),
    ensures
        verdict(front + back, front_answers + back_answers) == (match verdict(front, front_answers) {
            Err(e) => Err(e),
            Ok(_) => verdict(back, back_answers),
        }),
    decreases back.len(),
{
    if back.len() == 0 {
        assert(front + back =~= front);
        assert(front_answers + back_answers =~= front_answers);
    } else {
        assert((front + back).drop_last() =~= front + back.drop_last());
        assert((front_answers + back_answers).drop_last() =~= front_answers + back_answers.drop_last());
        assert((front + back).last() == back.last());
        assert((front_answers + back_answers).last() == back_answers.last());
        lemma_verdict_concat(front, front_answers, back.drop_last(), back_answers.drop_last());
    }
}

/// The verdict is success exactly where every probe comes to success.
pub proof fn lemma_verdict_ok(ps: Seq<ProbeView>, answers: Seq<bool>)
    requires
        answers.len() == ps.len(),
    ensures
        verdict(ps, answers) is Ok <==> forall|k: int|
            0 <= k < ps.len() ==> (#[trigger] ps[k]).judge(answers[k]) is Ok,
    decreases ps.len(),
{
    if ps.len() > 0 {
        let init = ps.drop_last();
        let init_answers = answers.drop_last();
        lemma_verdict_ok(init, init_answers);
        if verdict(ps, answers) is Ok {
            assert forall|k: int| 0 <= k < ps.len() implies (#[trigger] ps[k]).judge(
                answers[k],
            ) is Ok by {
                if k < ps.len() - 1 {
                    assert(init[k] == ps[k]);
                    assert(init_answers[k] == answers[k]);
                }
            }
        }
        if forall|k: int| 0 <= k < ps.len() ==> (#[trigger] ps[k]).judge(answers[k]) is Ok {
            assert forall|k: int| 0 <= k < init.len() implies (#[trigger] init[k]).judge(init_answers[k]) is Ok by {
                assert(init[k] == ps[k]);
                assert(init_answers[k] == answers[k]);
            }
            assert(ps[ps.len() - 1].judge(answers[ps.len() - 1]) is Ok);
        }
    }
}

/// The verdict is the error of the first probe that fails.
pub proof fn lemma_verdict_first_failure(ps: Seq<ProbeView>, answers: Seq<bool>, k: int)
    requires
        answers.len() == ps.len(),
        0 <= k < ps.len(),
        ps[k].judge(answers[k]) is Err,
        forall|h: int| 0 <= h < k ==> (#[trigger] ps[h]).judge(answers[h]) is Ok,
    ensures
        verdict(ps, answers) == ps[k].judge(answers[k]),
{
    let before = ps.take(k);
    let before_answers = answers.take(k);
    let here = seq![ps[k]];
    let here_answers = seq![answers[k]];
    let after = ps.skip(k + 1);
    let after_answers = answers.skip(k + 1);
    assert forall|h: int| 0 <= h < before.len() implies (#[trigger] before[h]).judge(before_answers[h]) is Ok by {
        assert(before[h] == ps[h]);
    }
    lemma_verdict_ok(before, before_answers);
    assert(here.drop_last() =~= Seq::<ProbeView>::empty());
    assert(verdict(here.drop_last(), here_answers.drop_last()) is Ok);
    assert(verdict(here, here_answers) == ps[k].judge(answers[k]));
    lemma_verdict_concat(before, before_answers, here, here_answers);
    lemma_verdict_concat(before + here, before_answers + here_answers, after, after_answers);
    assert(ps =~= before + here + after);
    assert(answers =~= before_answers + here_answers + after_answers);
}

/// An error is the error of a probe before which every probe succeeded.
pub proof fn lemma_verdict_error(ps: Seq<ProbeView>, answers: Seq<bool>)
    requires
        answers.len() == ps.len(),
        verdict(ps, answers) is Err,
    ensures
        exists|k: int|
            0 <= k < ps.len() && (#[trigger] ps[k]).judge(answers[k]) == verdict(ps, answers)
                && forall|h: int| 0 <= h < k ==> (#[trigger] ps[h]).judge(answers[h]) is Ok,
    decreases ps.len(),
{
    let init = ps.drop_last();
    let init_answers = answers.drop_last();
    if verdict(init, init_answers) is Err {
        lemma_verdict_error(init, init_answers);
        let k = choose|k: int|
            0 <= k < init.len() && (#[trigger] init[k]).judge(init_answers[k]) == verdict(
                init,
                init_answers,
            ) && forall|h: int| 0 <= h < k ==> (#[trigger] init[h]).judge(init_answers[h]) is Ok;
        assert(ps[k] == init[k]);
        assert forall|h: int| 0 <= h < k implies (#[trigger] ps[h]).judge(answers[h]) is Ok by {
            assert(ps[h] == init[h]);
        }
    } else {
        lemma_verdict_ok(init, init_answers);
        let k = ps.len() - 1;
        assert(ps[k] == ps.last());
        assert forall|h: int| 0 <= h < k implies (#[trigger] ps[h]).judge(answers[h]) is Ok by {
            assert(ps[h] == init[h]);
        }
    }
}

/// The probes of two runs of archives, one after the other.
pub proof fn lemma_manifest_probes_concat(
    a: Seq<(Seq<char>, ArchiveView)>,
    b: Seq<(Seq<char>, ArchiveView)>,
)
    ensures
        manifest_probes(a + b) == manifest_probes(a) + manifest_probes(b),
    decreases b.len(),
{
    if b.len() == 0 {
        assert(a + b =~= a);
        assert(manifest_probes(a) + manifest_probes(b) =~= manifest_probes(a));
    } else {
        assert((a + b).drop_last() =~= a + b.drop_last());
        assert((a + b).last() == b.last());
        lemma_manifest_probes_concat(a, b.drop_last());
        assert(manifest_probes(a + b) =~= manifest_probes(a) + manifest_probes(b));
    }
}

/// The directory of the output file of `a` is among `present`, or the file
/// name has no directory, or an empty one.
pub open spec fn output_dir_present(a: ArchiveView, present: Set<Seq<char>>) -> bool {
    match parent(a.filename) {
        Some(dir) => dir.len() == 0 || present.contains(dir),
        None => true,
    }
}

/// No mapping of `a` is a pattern, and the source of each is among `present`.
pub open spec fn sources_present(a: ArchiveView, present: Set<Seq<char>>) -> bool {
    forall|k: int|
        0 <= k < items(a.entries).len() ==> match (#[trigger] items(a.entries)[k]).1.source() {
            Some(s) => present.contains(s),
            None => false,
        }
}

/// An archive is valid where the directory of its output file and the
/// sources of all its mappings are present, and no mapping is a pattern.
pub proof fn lemma_present_archive_is_valid(a: ArchiveView, present: Set<Seq<char>>)
    requires
        output_dir_present(a, present),
        sources_present(a, present),
    ensures
        validate(a, present) is Ok,
{
    let ps = probes(a);
    let answers = observe(ps, present);
    let head = output_probes(a.filename);
    assert forall|k: int| 0 <= k < ps.len() implies (#[trigger] ps[k]).judge(answers[k]) is Ok by {
        if k >= head.len() {
            let it = items(a.entries)[k - head.len()];
            assert(ps[k] == mapping_probe(it.1));
        }
    }
    lemma_verdict_ok(ps, answers);
}

/// Validating a whole manifest succeeds where, for every archive, the
/// directory of the output file and the sources of all mappings are present,
/// and no mapping is a pattern.
pub proof fn lemma_present_manifest_is_valid(m: ManifestView, present: Set<Seq<char>>)
    requires
        forall|i: int|
            0 <= i < m.slots.len() ==> output_dir_present((#[trigger] m.slots[i]).1, present)
                && sources_present(m.slots[i].1, present),
    ensures
        validate_all(m, present) is Ok,
    decreases m.slots.len(),
{
    if m.slots.len() > 0 {
        let front = ManifestView { slots: m.slots.drop_last() };
        assert forall|i: int| 0 <= i < front.slots.len() implies output_dir_present(
            (#[trigger] front.slots[i]).1,
            present,
        ) && sources_present(front.slots[i].1, present) by {
            assert(front.slots[i] == m.slots[i]);
        }
        lemma_present_manifest_is_valid(front, present);
        let last = m.slots.last().1;
        assert(m.slots[m.slots.len() - 1].1 == last);
        lemma_present_archive_is_valid(last, present);
        lemma_validate_all_step(m, present);
    }
}

/// Validating a manifest is validating all archives but the last, and then,
/// where those are valid, the last.
pub proof fn lemma_validate_all_step(m: ManifestView, present: Set<Seq<char>>)
    requires
        m.slots.len() > 0,
    ensures
        validate_all(m, present) == (match validate_all(
            ManifestView { slots: m.slots.drop_last() },
            present,
        ) {
            Err(e) => Err(e),
            Ok(_) => validate(m.slots.last().1, present),
        }),
{
    let done = manifest_probes(m.slots.drop_last());
    let here = probes(m.slots.last().1);
    lemma_verdict_concat(done, observe(done, present), here, observe(here, present));
    assert(observe(done + here, present) =~= observe(done, present) + observe(here, present));
}

/// Validating a manifest gives the error of the first archive that is not
/// valid.
pub proof fn lemma_validate_all_first_failure(m: ManifestView, present: Set<Seq<char>>, i: int)
    requires
        0 <= i < m.slots.len(),
        validate(m.slots[i].1, present) is Err,
        forall|j: int| 0 <= j < i ==> validate((#[trigger] m.slots[j]).1, present) is Ok,
    ensures
        validate_all(m, present) == validate(m.slots[i].1, present),
    decreases m.slots.len(),
{
    let front = ManifestView { slots: m.slots.drop_last() };
    lemma_validate_all_step(m, present);
    if i == m.slots.len() - 1 {
        lemma_validate_all_ok(front, present);
        assert forall|j: int| 0 <= j < front.slots.len() implies validate(
            (#[trigger] front.slots[j]).1,
            present,
        ) is Ok by {
            assert(front.slots[j] == m.slots[j]);
        }
    } else {
        assert(front.slots[i] == m.slots[i]);
        assert forall|j: int| 0 <= j < i implies validate(
            (#[trigger] front.slots[j]).1,
            present,
        ) is Ok by {
            assert(front.slots[j] == m.slots[j]);
        }
        lemma_validate_all_first_failure(front, present, i);
    }
}

/// A manifest is valid exactly where each of its archives is.
pub proof fn lemma_validate_all_ok(m: ManifestView, present: Set<Seq<char>>)
    ensures
        validate_all(m, present) is Ok <==> forall|i: int|
            0 <= i < m.slots.len() ==> validate((#[trigger] m.slots[i]).1, present) is Ok,
    decreases m.slots.len(),
{
    if m.slots.len() > 0 {
        let front = ManifestView { slots: m.slots.drop_last() };
        lemma_validate_all_ok(front, present);
        lemma_validate_all_step(m, present);
        if validate_all(m, present) is Ok {
            assert forall|i: int| 0 <= i < m.slots.len() implies validate(
                (#[trigger] m.slots[i]).1,
                present,
            ) is Ok by {
                if i < m.slots.len() - 1 {
                    assert(front.slots[i] == m.slots[i]);
                }
            }
        }
        if forall|i: int|
            0 <= i < m.slots.len() ==> validate((#[trigger] m.slots[i]).1, present) is Ok {
            assert forall|i: int| 0 <= i < front.slots.len() implies validate(
                (#[trigger] front.slots[i]).1,
                present,
            ) is Ok by {
                assert(front.slots[i] == m.slots[i]);
            }
            assert(validate(m.slots[m.slots.len() - 1].1, present) is Ok);
        }
    }
}

/// Where each probe comes to success or to the error `e`, so does the
/// verdict.
pub proof fn lemma_verdict_among(ps: Seq<ProbeView>, answers: Seq<bool>, e: ValidationError)
    requires
        answers.len() == ps.len(),
        forall|k: int|
            0 <= k < ps.len() ==> (#[trigger] ps[k]).judge(answers[k]) is Ok || ps[k].judge(
                answers[k],
            ) == Err::<(), ValidationError>(e),
    ensures
        verdict(ps, answers) is Ok || verdict(ps, answers) == Err::<(), ValidationError>(e),
    decreases ps.len(),
{
    if ps.len() > 0 {
        let init = ps.drop_last();
        let init_answers = answers.drop_last();
        assert forall|k: int| 0 <= k < init.len() implies (#[trigger] init[k]).judge(init_answers[k]) is Ok
            || init[k].judge(init_answers[k]) == Err::<(), ValidationError>(e) by {
            assert(init[k] == ps[k]);
        }
        lemma_verdict_among(init, init_answers, e);
        assert(ps.last() == ps[ps.len() - 1]);
    }
}

/// An archive with a mapping whose source is not present is not valid.
pub proof fn lemma_missing_source_is_invalid(a: ArchiveView, present: Set<Seq<char>>, k: int)
    requires
        0 <= k < items(a.entries).len(),
        items(a.entries)[k].1.source() matches Some(s) && !present.contains(s),
    ensures
        validate(a, present) is Err,
{
    let ps = probes(a);
    let answers = observe(ps, present);
    let head = output_probes(a.filename);
    lemma_verdict_ok(ps, answers);
    assert(ps[head.len() + k] == mapping_probe(items(a.entries)[k].1));
    assert(ps[head.len() + k].judge(answers[head.len() + k]) is Err);
}

/// Validation fails with `SourceMissing` where the source of a mapping is
/// not present, the directory of the output file is, and no mapping before
/// that one is a pattern.
pub proof fn lemma_missing_source_fails(a: ArchiveView, present: Set<Seq<char>>, k: int)
    requires
        output_dir_present(a, present),
        0 <= k < items(a.entries).len(),
        items(a.entries)[k].1.source() matches Some(s) && !present.contains(s),
        forall|h: int| 0 <= h < k ==> !((#[trigger] items(a.entries)[h]).1 is Glob),
    ensures
        validate(a, present) == Err::<(), ValidationError>(ValidationError::SourceMissing),
{
    let ps = probes(a);
    let answers = observe(ps, present);
    let head = output_probes(a.filename);
    let n = head.len() + k;
    let e = ValidationError::SourceMissing;
    let before = ps.take(n);
    let before_answers = answers.take(n);
    assert forall|h: int| 0 <= h < before.len() implies (#[trigger] before[h]).judge(before_answers[h]) is Ok
        || before[h].judge(before_answers[h]) == Err::<(), ValidationError>(e) by {
        assert(before[h] == ps[h]);
        if h >= head.len() {
            let it = items(a.entries)[h - head.len()];
            assert(ps[h] == mapping_probe(it.1));
        }
    }
    lemma_verdict_among(before, before_answers, e);
    assert(ps[n] == mapping_probe(items(a.entries)[k].1));
    let upto = ps.take(n + 1);
    let upto_answers = answers.take(n + 1);
    assert(upto.drop_last() =~= before);
    assert(upto_answers.drop_last() =~= before_answers);
    assert(upto.last() == ps[n]);
    assert(upto_answers.last() == answers[n]);
    assert(verdict(upto, upto_answers) == Err::<(), ValidationError>(e));
    lemma_verdict_concat(upto, upto_answers, ps.skip(n + 1), answers.skip(n + 1));
    assert(ps =~= upto + ps.skip(n + 1));
    assert(answers =~= upto_answers + answers.skip(n + 1));
}

/// Asks the disk whether `path` is there. Calls `std::path::Path::exists`,
/// which follows links and answers `false` where the path cannot be reached.
/// Nothing is claimed of the answer: it is the state of the disk at the time
/// of the call.
#[verifier::external_body]
fn path_exists(path: &str) -> bool {
    std::path::Path::new(path).exists()
}

/// Whether `path` is one of the paths of `listing`.
pub fn is_listed(listing: &Vec<String>, path: &String) -> (r: bool)
    ensures
        r == listed(listing@).contains(path@),
{
    let mut k: usize = 0;
    while k < listing.len()
        invariant
            k <= listing.len(),
            forall|h: int| 0 <= h < k ==> (#[trigger] listing@[h])@ != path@,
        decreases listing.len() - k,
    {
        if listing[k] == *path {
            return true;
        }
        k = k + 1;
    }
    false
}

fn probe_of(mapping: &FileMapping) -> (r: Probe)
    ensures
        r@ == mapping_probe(mapping@),
{
    match mapping {
        FileMapping::Source(s) => Probe::Source(s.clone()),
        FileMapping::SourceWithDestination { src, dest } => Probe::Source(src.clone()),
        FileMapping::Glob(p) => Probe::Glob(p.clone()),
    }
}

/// The view of a list of probes.
pub open spec fn probes_view(ps: Seq<Probe>) -> Seq<ProbeView> {
    ps.map_values(|p: Probe| p@)
}

/// The probes of `archive`, in the order in which validation looks at them.
pub fn probes_of(archive: &Archive) -> (r: Vec<Probe>)
    ensures
        probes_view(r@) == probes(archive@),
{
    let ghost entries = archive@.entries;
    let mut out: Vec<Probe> = Vec::new();
    match parent_dir(archive.filename.as_str()) {
        Some(dir) => {
            if !dir.as_str().is_empty() {
                out.push(Probe::OutputDir(dir));
            }
        },
        None => {},
    }
    let ghost head = output_probes(archive@.filename);
    assert(probes_view(out@) =~= head);
    let mut i: usize = 0;
    proof {
        assert(entries.take(0) =~= Seq::empty());
        assert(head + item_probes(items(entries.take(0))) =~= head);
    }
    while i < archive.entries.len()
        invariant
            i <= archive.entries.len(),
            entries == archive@.entries,
            head == output_probes(archive@.filename),
            probes_view(out@) == head + item_probes(items(entries.take(i as int))),
        decreases archive.entries.len() - i,
    {
        let entry = &archive.entries[i];
        let ghost done = items(entries.take(i as int));
        let ghost here = crate::manifest::entry_items(entry@);
        assert(entry@ == entries[i as int]);
        let mut j: usize = 0;
        assert(done + here.take(0) =~= done);
        while j < entry.files.len()
            invariant
                j <= entry.files.len(),
                entry@ == entries[i as int],
                here == crate::manifest::entry_items(entry@),
                probes_view(out@) == head + item_probes(done + here.take(j as int)),
            decreases entry.files.len() - j,
        {
            let ghost before = probes_view(out@);
            let p = probe_of(&entry.files[j]);
            out.push(p);
            proof {
                assert(probes_view(out@) =~= before.push(p@));
                assert(here[j as int].1 == entry.files[j as int]@);
                assert(head + item_probes(done + here.take(j + 1)) =~= (head + item_probes(
                    done + here.take(j as int),
                )).push(p@));
            }
            j = j + 1;
        }
        proof {
            assert(here.take(j as int) =~= here);
            assert(entries.take(i + 1).drop_last() =~= entries.take(i as int));
            assert(entries.take(i + 1).last() == entries[i as int]);
        }
        i = i + 1;
    }
    assert(entries.take(i as int) =~= entries);
    out
}

/// What the probes come to where exactly the paths of `listing` are on disk.
pub fn decide(ps: &Vec<Probe>, listing: &Vec<String>) -> (r: Result<(), ValidationError>)
    ensures
        r == verdict(probes_view(ps@), observe(probes_view(ps@), listed(listing@))),
{
    let ghost pv = probes_view(ps@);
    let ghost av = observe(pv, listed(listing@));
    let mut k: usize = 0;
    assert(pv.take(0) =~= Seq::empty());
    while k < ps.len()
        invariant
            k <= ps.len(),
            pv == probes_view(ps@),
            av == observe(pv, listed(listing@)),
            verdict(pv.take(k as int), av.take(k as int)) is Ok,
        decreases ps.len() - k,
    {
        let found = is_listed(listing, ps[k].path());
        let r = ps[k].judge(found);
        proof {
            assert(pv.take(k + 1).drop_last() =~= pv.take(k as int));
            assert(av.take(k + 1).drop_last() =~= av.take(k as int));
            assert(pv.take(k + 1).last() == ps[k as int]@);
            assert(av.take(k + 1).last() == found);
        }
        if r.is_err() {
            proof {
                lemma_verdict_concat(
                    pv.take(k + 1),
                    av.take(k + 1),
                    pv.skip(k + 1),
                    av.skip(k + 1),
                );
                assert(pv =~= pv.take(k + 1) + pv.skip(k + 1));
                assert(av =~= av.take(k + 1) + av.skip(k + 1));
            }
            return r;
        }
        k = k + 1;
    }
    assert(pv.take(k as int) =~= pv);
    assert(av.take(k as int) =~= av);
    Ok(())
}

/// Looks at the probes on disk, one after the other, up to the first that
/// fails. The result is the verdict on what the disk answered.
fn run_probes(ps: &Vec<Probe>) -> (r: Result<(), ValidationError>)
    ensures
        exists|answers: Seq<bool>|
            answers.len() == ps@.len() && r == #[trigger] verdict(probes_view(ps@), answers),
{
    let ghost pv = probes_view(ps@);
    let ghost mut seen: Seq<bool> = Seq::empty();
    let mut k: usize = 0;
    assert(pv.take(0) =~= Seq::empty());
    while k < ps.len()
        invariant
            k <= ps.len(),
            pv == probes_view(ps@),
            seen.len() == k,
            verdict(pv.take(k as int), seen) is Ok,
        decreases ps.len() - k,
    {
        let found = match &ps[k] {
            Probe::Glob(_) => false,
            Probe::OutputDir(d) => path_exists(d.as_str()),
            Probe::Source(s) => path_exists(s.as_str()),
        };
        let r = ps[k].judge(found);
        proof {
            assert(pv.take(k + 1).drop_last() =~= pv.take(k as int));
            assert(seen.push(found).drop_last() =~= seen);
            assert(pv.take(k + 1).last() == ps[k as int]@);
            seen = seen.push(found);
        }
        if r.is_err() {
            proof {
                let rest = Seq::new((ps.len() - k - 1) as nat, |h: int| true);
                lemma_verdict_concat(pv.take(k + 1), seen, pv.skip(k + 1), rest);
                assert(pv =~= pv.take(k + 1) + pv.skip(k + 1));
                assert(r == verdict(pv, seen + rest));
            }
            return r;
        }
        k = k + 1;
    }
    assert(pv.take(k as int) =~= pv);
    assert(Ok::<(), ValidationError>(()) == verdict(pv, seen));
    Ok(())
}

/// Validates one archive against the disk.
///
/// The disk is asked about each probe of the archive in turn, up to the
/// first that fails; the result is the verdict on its answers. So an archive
/// without probes is valid, and an error names a probe that the archive has.
pub fn check_archive(archive: &Archive) -> (r: Result<(), ValidationError>)
    ensures
        exists|answers: Seq<bool>|
            answers.len() == probes(archive@).len() && r == #[trigger] verdict(
                probes(archive@),
                answers,
            ),
{
    let ps = probes_of(archive);
    run_probes(&ps)
}

/// Validates the archive called `name` against the disk.
pub fn check(manifest: &Manifest, name: &str) -> (r: Result<(), ValidationError>)
    requires
        manifest@.contains(name@),
    ensures
        exists|answers: Seq<bool>|
            answers.len() == probes(manifest@.archive(name@)).len() && r == #[trigger] verdict(
                probes(manifest@.archive(name@)),
                answers,
            ),
{
    check_archive(manifest.archive(name))
}

/// Validates the archive where exactly the paths of `listing` are on disk.
pub fn check_against(archive: &Archive, listing: &Vec<String>) -> (r: Result<(), ValidationError>)
    ensures
        r == validate(archive@, listed(listing@)),
{
    let ps = probes_of(archive);
    decide(&ps, listing)
}

/// Validates every archive of the manifest against the disk, in the order
/// in which the manifest holds them, and stops at the first that fails.
///
/// The result is the verdict on what the disk answered about the probes of
/// all archives, one archive after the other.
pub fn check_all(manifest: &Manifest) -> (r: Result<(), ValidationError>)
    ensures
        exists|answers: Seq<bool>|
            answers.len() == manifest_probes(manifest@.slots).len() && r == #[trigger] verdict(
                manifest_probes(manifest@.slots),
                answers,
            ),
{
    let ghost slots = manifest@.slots;
    let ghost mut seen: Seq<bool> = Seq::empty();
    let n = manifest.len();
    let mut i: usize = 0;
    assert(slots.take(0) =~= Seq::empty());
    while i < n
        invariant
            i <= n,
            n == slots.len(),
            slots == manifest@.slots,
            seen.len() == manifest_probes(slots.take(i as int)).len(),
            verdict(manifest_probes(slots.take(i as int)), seen) is Ok,
        decreases n - i,
    {
        let archive = manifest.archive_at(i);
        let r = check_archive(archive);
        proof {
            let here = probes(archive@);
            let answers = choose|answers: Seq<bool>|
                answers.len() == here.len() && r == #[trigger] verdict(here, answers);
            let done = manifest_probes(slots.take(i as int));
            assert(slots.take(i + 1).drop_last() =~= slots.take(i as int));
            assert(slots.take(i + 1).last() == slots[i as int]);
            lemma_verdict_concat(done, seen, here, answers);
            seen = seen + answers;
        }
        if r.is_err() {
            proof {
                let upto = manifest_probes(slots.take(i + 1));
                let after = manifest_probes(slots.skip(i + 1));
                let rest = Seq::new(after.len(), |h: int| true);
                assert(slots =~= slots.take(i + 1) + slots.skip(i + 1));
                lemma_manifest_probes_concat(slots.take(i + 1), slots.skip(i + 1));
                lemma_verdict_concat(upto, seen, after, rest);
                assert(r == verdict(manifest_probes(slots), seen + rest));
            }
            return r;
        }
        i = i + 1;
    }
    assert(slots.take(i as int) =~= slots);
    assert(Ok::<(), ValidationError>(()) == verdict(manifest_probes(slots), seen));
    Ok(())
}

/// Validates every archive of the manifest where exactly the paths of
/// `listing` are on disk.
pub fn check_all_against(manifest: &Manifest, listing: &Vec<String>) -> (r: Result<
    (),
    ValidationError,
>)
    ensures
        r == validate_all(manifest@, listed(listing@)),
{
    let ghost slots = manifest@.slots;
    let ghost present = listed(listing@);
    let n = manifest.len();
    let mut i: usize = 0;
    assert(slots.take(0) =~= Seq::empty());
    while i < n
        invariant
            i <= n,
            n == slots.len(),
            slots == manifest@.slots,
            present == listed(listing@),
            verdict(
                manifest_probes(slots.take(i as int)),
                observe(manifest_probes(slots.take(i as int)), present),
            ) is Ok,
        decreases n - i,
    {
        let archive = manifest.archive_at(i);
        let r = check_against(archive, listing);
        proof {
            let here = probes(archive@);
            let done = manifest_probes(slots.take(i as int));
            assert(slots.take(i + 1).drop_last() =~= slots.take(i as int));
            assert(slots.take(i + 1).last() == slots[i as int]);
            lemma_verdict_concat(done, observe(done, present), here, observe(here, present));
            assert(observe(done + here, present) =~= observe(done, present) + observe(
                here,
                present,
            ));
        }
        if r.is_err() {
            proof {
                let upto = manifest_probes(slots.take(i + 1));
                let after = manifest_probes(slots.skip(i + 1));
                assert(slots =~= slots.take(i + 1) + slots.skip(i + 1));
                lemma_manifest_probes_concat(slots.take(i + 1), slots.skip(i + 1));
                lemma_verdict_concat(
                    upto,
                    observe(upto, present),
                    after,
                    observe(after, present),
                );
                assert(observe(upto + after, present) =~= observe(upto, present) + observe(
                    after,
                    present,
                ));
            }
            return r;
        }
        i = i + 1;
    }
    assert(slots.take(i as int) =~= slots);
    Ok(())
}

} // verus!
