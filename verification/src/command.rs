//! What a caller asks for: which manifest to read, and what to do with which
//! of its archives.

use vstd::prelude::*;
use crate::manifest::{Manifest, ManifestView};
use crate::text::opt_view;
use crate::validate::{
    check, check_all, manifest_probes, probes, verdict, ProbeView, ValidationError,
};

verus! {

/// What to do, and with which archive. Without an archive, it is done with
/// every archive of the manifest.
#[derive(Clone, PartialEq, Eq, Debug)]
pub enum Command {
    /// Validate, without writing anything.
    Check { archive: Option<String> },
    /// Build.
    Run { archive: Option<String> },
}

/// A request: the manifest file, if one is named, and the command.
#[derive(Clone, PartialEq, Eq, Debug)]
pub struct Cli {
    pub file: Option<String>,
    pub command: Command,
}

/// The manifest file that is read where the request names none.
pub const DEFAULT_MANIFEST: &'static str = "zip-compose.yaml";

impl Command {
    /// The archive that the command names, if it names one.
    pub open spec fn spec_archive(self) -> Option<Seq<char>> {
        match self {
            Command::Check { archive } => opt_view(archive),
            Command::Run { archive } => opt_view(archive),
        }
    }

    /// The archive that the command names, if it names one.
    pub fn archive(&self) -> (r: &Option<String>)
        ensures
            opt_view(*r) == self.spec_archive(),
    {
        match self {
            Command::Check { archive } => archive,
            Command::Run { archive } => archive,
        }
    }

    /// Whether the command only validates.
    pub fn is_check(&self) -> (r: bool)
        ensures
            r == (self is Check),
    {
        match self {
            Command::Check { .. } => true,
            Command::Run { .. } => false,
        }
    }
}

impl Cli {
    /// The manifest file to read: the one that the request names, or
    /// `DEFAULT_MANIFEST`.
    pub fn manifest_path(&self) -> (r: String)
        ensures
            r@ == (match self.file {
                Some(f) => f@,
                None => DEFAULT_MANIFEST@,
            }),
    {
        match &self.file {
            Some(f) => f.clone(),
            None => DEFAULT_MANIFEST.to_owned(),
        }
    }
}

/// The probes that validation looks at for a selection: those of the archive
/// that is named, or those of every archive.
pub open spec fn selected_probes(m: ManifestView, selection: Option<Seq<char>>) -> Seq<ProbeView> {
    match selection {
        Some(name) => probes(m.archive(name)),
        None => manifest_probes(m.slots),
    }
}

/// Validates against the disk the archive that `selection` names, or every
/// archive where it names none.
pub fn check_selected(manifest: &Manifest, selection: &Option<String>) -> (r: Result<
    (),
    ValidationError,
>)
    requires
        selection matches Some(name) ==> manifest@.contains(name@),
    ensures
        exists|answers: Seq<bool>|
            answers.len() == selected_probes(manifest@, opt_view(*selection)).len() && r
                == #[trigger] verdict(
                selected_probes(manifest@, opt_view(*selection)),
                answers,
            ),
{
    let ghost ps = selected_probes(manifest@, opt_view(*selection));
    let r = match selection {
        Some(name) => check(manifest, name.as_str()),
        None => check_all(manifest),
    };
    proof {
        let answers = choose|answers: Seq<bool>|
            answers.len() == ps.len() && r == #[trigger] verdict(ps, answers);
        assert(r == verdict(selected_probes(manifest@, opt_view(*selection)), answers));
    }
    r
}

} // verus!
