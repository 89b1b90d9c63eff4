//! The manifest: named archives, each an output file and an ordered list of
//! entries, each entry a destination directory and the files placed under it.

use vstd::prelude::*;
use crate::text::contains_char;

verus! {

/// One rule that says how a file on disk, or every file that a pattern
/// matches, becomes a file of the archive.
#[derive(Clone, PartialEq, Eq, Debug)]
pub enum FileMapping {
    /// The file at this path, under its own name.
    Source(String),
    /// The file at `src`, under the final name of `dest`.
    SourceWithDestination { src: String, dest: String },
    /// Every file that the pattern matches, each under its own name.
    Glob(String),
}

/// A file mapping as a mathematical value.
pub enum FileMappingView {
    Source(Seq<char>),
    SourceWithDestination { src: Seq<char>, dest: Seq<char> },
    Glob(Seq<char>),
}

impl View for FileMapping {
    type V = FileMappingView;

    open spec fn view(&self) -> FileMappingView {
        match self {
            FileMapping::Source(s) => FileMappingView::Source(s@),
            FileMapping::SourceWithDestination { src, dest } => {
                FileMappingView::SourceWithDestination { src: src@, dest: dest@ }
            },
            FileMapping::Glob(p) => FileMappingView::Glob(p@),
        }
    }
}

/// The two shapes in which a manifest writes a file mapping: a bare text, or
/// a record of a source and a destination.
#[derive(Clone, PartialEq, Eq, Debug)]
pub enum FileMappingInput {
    Simple(String),
    Detailed { src: String, dest: String },
}

/// The written shape of a file mapping as a mathematical value.
pub enum FileMappingInputView {
    Simple(Seq<char>),
    Detailed { src: Seq<char>, dest: Seq<char> },
}

impl View for FileMappingInput {
    type V = FileMappingInputView;

    open spec fn view(&self) -> FileMappingInputView {
        match self {
            FileMappingInput::Simple(s) => FileMappingInputView::Simple(s@),
            FileMappingInput::Detailed { src, dest } => {
                FileMappingInputView::Detailed { src: src@, dest: dest@ }
            },
        }
    }
}

impl FileMappingView {
    /// The mapping that a written shape stands for. A record is a source
    /// with a destination; a text is a pattern if it holds a `*`, and a
    /// source otherwise.
    pub open spec fn resolved(input: FileMappingInputView) -> FileMappingView {
        match input {
            FileMappingInputView::Detailed { src, dest } => {
                FileMappingView::SourceWithDestination { src, dest }
            },
            FileMappingInputView::Simple(s) => {
                if s.contains('*') {
                    FileMappingView::Glob(s)
                } else {
                    FileMappingView::Source(s)
                }
            },
        }
    }

    /// The path on disk that the mapping reads; a pattern has none.
    pub open spec fn source(self) -> Option<Seq<char>> {
        match self {
            FileMappingView::Source(s) => Some(s),
            FileMappingView::SourceWithDestination { src, dest } => Some(src),
            FileMappingView::Glob(_) => None,
        }
    }

    /// The path whose final name the file gets in the archive; a pattern has
    /// none.
    pub open spec fn naming_path(self) -> Option<Seq<char>> {
        match self {
            FileMappingView::Source(s) => Some(s),
            FileMappingView::SourceWithDestination { src, dest } => Some(dest),
            FileMappingView::Glob(_) => None,
        }
    }
}

impl FileMapping {
    /// Reads a written shape as a mapping. Every shape is some mapping: a
    /// record is a source with a destination, whatever its texts hold; a
    /// text with a `*` is a pattern; any other text is a source.
    pub fn resolve(input: FileMappingInput) -> (r: FileMapping)
        ensures
            r@ == FileMappingView::resolved(input@),
            input@ matches FileMappingInputView::Detailed { src, dest } ==> r@
                == (FileMappingView::SourceWithDestination { src, dest }),
            input@ matches FileMappingInputView::Simple(s) ==> (s.contains('*') ==> r@
                == FileMappingView::Glob(s)) && (!s.contains('*') ==> r@
                == FileMappingView::Source(s)),
    {
        match input {
            FileMappingInput::Detailed { src, dest } => {
                FileMapping::SourceWithDestination { src, dest }
            },
            FileMappingInput::Simple(s) => {
                if contains_char(s.as_str(), '*') {
                    FileMapping::Glob(s)
                } else {
                    FileMapping::Source(s)
                }
            },
        }
    }
}

/// A destination directory inside the archive and the files placed under it.
#[derive(Clone, PartialEq, Eq, Debug)]
pub struct FilesWithDestination {
    pub dest_dir: String,
    pub files: Vec<FileMapping>,
}

/// An entry as a mathematical value.
pub struct EntryView {
    pub dest_dir: Seq<char>,
    pub files: Seq<FileMappingView>,
}

impl View for FilesWithDestination {
    type V = EntryView;

    open spec fn view(&self) -> EntryView {
        EntryView {
            dest_dir: self.dest_dir@,
            files: self.files@.map_values(|f: FileMapping| f@),
        }
    }
}

/// One output file and the entries that fill it, in the order in which they
/// are written.
#[derive(Clone, PartialEq, Eq, Debug)]
pub struct Archive {
    pub filename: String,
    pub entries: Vec<FilesWithDestination>,
}

/// An archive as a mathematical value.
pub struct ArchiveView {
    pub filename: Seq<char>,
    pub entries: Seq<EntryView>,
}

impl View for Archive {
    type V = ArchiveView;

    open spec fn view(&self) -> ArchiveView {
        ArchiveView {
            filename: self.filename@,
            entries: self.entries@.map_values(|e: FilesWithDestination| e@),
        }
    }
}

/// A mapping together with the destination directory of its entry.
pub type Item = (Seq<char>, FileMappingView);

/// The mappings of one entry, each with the entry's destination directory.
pub open spec fn entry_items(e: EntryView) -> Seq<Item> {
    Seq::new(e.files.len(), |i: int| (e.dest_dir, e.files[i]))
}

/// The mappings of the entries, entry by entry, in order.
pub open spec fn items(entries: Seq<EntryView>) -> Seq<Item>
    decreases entries.len(),
{
    if entries.len() == 0 {
        Seq::empty()
    } else {
        items(entries.drop_last()) + entry_items(entries.last())
    }
}

/// The items of two runs of entries, one after the other.
pub proof fn lemma_items_concat(a: Seq<EntryView>, b: Seq<EntryView>)
    ensures
        items(a + b) == items(a) + items(b),
    decreases b.len(),
{
    if b.len() == 0 {
        assert(a + b =~= a);
        assert(items(a) + items(b) =~= items(a));
    } else {
        assert((a + b).drop_last() =~= a + b.drop_last());
        assert((a + b).last() == b.last());
        lemma_items_concat(a, b.drop_last());
        assert(items(a + b) =~= items(a) + items(b));
    }
}

/// A manifest as a mathematical value: the archives with their names, in
/// the order in which they are walked.
pub struct ManifestView {
    pub slots: Seq<(Seq<char>, ArchiveView)>,
}

impl ManifestView {
    /// No name stands for two archives.
    pub open spec fn names_distinct(self) -> bool {
        forall|i: int, j: int|
            0 <= i < j < self.slots.len() ==> (#[trigger] self.slots[i]).0 != (
            #[trigger] self.slots[j]).0
    }

    /// The place of the archive called `name`, or the number of archives
    /// where there is none.
    pub open spec fn position(self, name: Seq<char>) -> int
        decreases self.slots.len(),
    {
        if self.slots.len() == 0 {
            0
        } else if self.slots[0].0 == name {
            0
        } else {
            1 + (ManifestView { slots: self.slots.drop_first() }).position(name)
        }
    }

    /// An archive is called `name`.
    pub open spec fn contains(self, name: Seq<char>) -> bool {
        self.position(name) < self.slots.len()
    }

    /// The archive called `name`.
    pub open spec fn archive(self, name: Seq<char>) -> ArchiveView
        recommends
            self.contains(name),
    {
        self.slots[self.position(name)].1
    }

    /// The manifest with `archive` under `name`: in the place of the archive
    /// that had the name, or else behind the others.
    pub open spec fn insert(self, name: Seq<char>, archive: ArchiveView) -> ManifestView {
        if self.contains(name) {
            ManifestView { slots: self.slots.update(self.position(name), (name, archive)) }
        } else {
            ManifestView { slots: self.slots.push((name, archive)) }
        }
    }
}

/// `position` finds the first slot with the name, and nothing before it has
/// the name.
pub proof fn lemma_position(m: ManifestView, name: Seq<char>)
    ensures
        0 <= m.position(name) <= m.slots.len(),
        m.contains(name) ==> m.slots[m.position(name)].0 == name,
        forall|i: int| 0 <= i < m.position(name) ==> (#[trigger] m.slots[i]).0 != name,
    decreases m.slots.len(),
{
    if m.slots.len() > 0 && m.slots[0].0 != name {
        let rest = ManifestView { slots: m.slots.drop_first() };
        lemma_position(rest, name);
        assert forall|i: int| 0 <= i < m.position(name) implies (#[trigger] m.slots[i]).0
            != name by {
            if i > 0 {
                assert(m.slots[i] == rest.slots[i - 1]);
            }
        }
    }
}

/// The archives of a composition request, by name. No two have one name.
#[derive(Debug)]
pub struct Manifest {
    slots: Vec<(String, Archive)>,
}

impl View for Manifest {
    type V = ManifestView;

    closed spec fn view(&self) -> ManifestView {
        ManifestView { slots: self.slots@.map_values(|s: (String, Archive)| (s.0@, s.1@)) }
    }
}

impl Manifest {
    #[verifier::type_invariant]
    spec fn names_distinct(&self) -> bool {
        self@.names_distinct()
    }

    /// A manifest without archives.
    pub fn new() -> (r: Manifest)
        ensures
            r@.slots.len() == 0,
    {
        Manifest { slots: Vec::new() }
    }

    /// The number of archives. Their names are distinct.
    pub fn len(&self) -> (n: usize)
        ensures
            n == self@.slots.len(),
            self@.names_distinct(),
    {
        proof {
            use_type_invariant(self);
        }
        self.slots.len()
    }

    /// The name of the archive in place `i`.
    pub fn name_at(&self, i: usize) -> (r: &String)
        requires
            i < self@.slots.len(),
        ensures
            r@ == self@.slots[i as int].0,
    {
        &self.slots[i].0
    }

    /// The archive in place `i`.
    pub fn archive_at(&self, i: usize) -> (r: &Archive)
        requires
            i < self@.slots.len(),
        ensures
            r@ == self@.slots[i as int].1,
    {
        &self.slots[i].1
    }

    fn find(&self, name: &str) -> (k: usize)
        ensures
            k == self@.position(name@),
            k <= self@.slots.len(),
    {
        let probe = name.to_owned();
        let mut k: usize = 0;
        proof {
            lemma_position(self@, name@);
        }
        while k < self.slots.len()
            invariant
                k <= self.slots.len(),
                probe@ == name@,
                forall|i: int| 0 <= i < k ==> (#[trigger] self@.slots[i]).0 != name@,
                k <= self@.position(name@) <= self@.slots.len(),
                self@.contains(name@) ==> self@.slots[self@.position(name@)].0 == name@,
            decreases self.slots.len() - k,
        {
            if self.slots[k].0 == probe {
                proof {
                    lemma_position(self@, name@);
                    assert(self@.slots[k as int].0 == name@);
                }
                return k;
            }
            k = k + 1;
        }
        k
    }

    /// The archive called `name`.
    pub fn archive(&self, name: &str) -> (r: &Archive)
        requires
            self@.contains(name@),
        ensures
            r@ == self@.archive(name@),
    {
        let k = self.find(name);
        &self.slots[k].1
    }

    /// Whether an archive is called `name`.
    pub fn contains(&self, name: &str) -> (r: bool)
        ensures
            r == self@.contains(name@),
    {
        self.find(name) < self.slots.len()
    }

    /// The archive called `name`, if there is one.
    pub fn get(&self, name: &str) -> (r: Option<&Archive>)
        ensures
            r is Some == self@.contains(name@),
            r matches Some(a) ==> a@ == self@.archive(name@),
    {
        let k = self.find(name);
        if k < self.slots.len() {
            Some(&self.slots[k].1)
        } else {
            None
        }
    }

    /// Puts `archive` under `name`. An archive that had the name is replaced
    /// where it stood; otherwise the new one comes last.
    pub fn insert(&mut self, name: String, archive: Archive)
        ensures
            final(self)@ == old(self)@.insert(name@, archive@),
    {
        let k = self.find(name.as_str());
        proof {
            use_type_invariant(&*self);
            lemma_position(self@, name@);
        }
        let ghost before = self@;
        let mut slots: Vec<(String, Archive)> = Vec::new();
        core::mem::swap(&mut self.slots, &mut slots);
        if k < slots.len() {
            slots.set(k, (name, archive));
        } else {
            slots.push((name, archive));
        }
        let ghost after = ManifestView {
            slots: slots@.map_values(|s: (String, Archive)| (s.0@, s.1@)),
        };
        assert(after.slots =~= before.insert(name@, archive@).slots);
        assert(after.names_distinct());
        core::mem::swap(&mut self.slots, &mut slots);
    }

    /// The names of the archives, in the order in which they are walked.
    pub fn names(&self) -> (r: Vec<String>)
        ensures
            r@.len() == self@.slots.len(),
            forall|i: int| 0 <= i < r@.len() ==> (#[trigger] r@[i])@ == self@.slots[i].0,
    {
        let mut r: Vec<String> = Vec::new();
        let mut i: usize = 0;
        while i < self.slots.len()
            invariant
                i <= self.slots.len(),
                r@.len() == i,
                forall|j: int| 0 <= j < i ==> (#[trigger] r@[j])@ == self@.slots[j].0,
            decreases self.slots.len() - i,
        {
            r.push(self.slots[i].0.clone());
            i = i + 1;
        }
        r
    }
}

} // verus!
