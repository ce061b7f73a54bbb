//! Which files a run writes, and when it refuses to.
use vstd::prelude::*;

use crate::source::Mode;

verus! {

/// Where the new file goes.
pub enum Target {
    /// Under a temporary name first; then the input is renamed to the backup, and
    /// the new file gets the name of the input.
    Replace { backup: String, temporary: String },
    /// Under a name of its own.
    Create { output: String },
}

/// The names of the files that a run writes, all in the directory of the input.
pub struct Outputs {
    pub target: Target,
    /// The file for the metadata, where the mode strips it.
    pub metadata: Option<String>,
}

/// The mathematical content of a target.
pub enum TargetNames {
    Replace { backup: Seq<char>, temporary: Seq<char> },
    Create { output: Seq<char> },
}

/// The mathematical content of `Outputs`.
pub struct OutputNames {
    pub target: TargetNames,
    pub metadata: Option<Seq<char>>,
}

impl View for Target {
    type V = TargetNames;

    open spec fn view(&self) -> TargetNames {
        match self {
            Target::Replace { backup, temporary } => TargetNames::Replace {
                backup: backup@,
                temporary: temporary@,
            },
            Target::Create { output } => TargetNames::Create { output: output@ },
        }
    }
}

impl View for Outputs {
    type V = OutputNames;

    open spec fn view(&self) -> OutputNames {
        OutputNames {
            target: self.target@,
            metadata: match self.metadata {
                Some(name) => Some(name@),
                None => None,
            },
        }
    }
}

/// The stem of the input, or what stands for it where it has none.
pub open spec fn stem_or_default(stem: Option<Seq<char>>) -> Seq<char> {
    match stem {
        Some(s) => s,
        None => "output"@,
    }
}

/// The extension of the input, or what stands for it where it has none.
pub open spec fn extension_or_default(extension: Option<Seq<char>>) -> Seq<char> {
    match extension {
        Some(s) => s,
        None => "tiff"@,
    }
}

/// The names of the files that a run writes.
pub open spec fn output_names(
    mode: Mode,
    stem: Seq<char>,
    extension: Seq<char>,
    rename: bool,
) -> OutputNames {
    match mode {
        Mode::Consolidate => OutputNames {
            target: if rename {
                TargetNames::Replace {
                    backup: stem + "_original."@ + extension,
                    temporary: stem + "_consolidating."@ + extension,
                }
            } else {
                TargetNames::Create { output: stem + "_copy."@ + extension }
            },
            metadata: None,
        },
        Mode::Plain => OutputNames {
            target: TargetNames::Create { output: stem + "_plain."@ + extension },
            metadata: Some(stem + "_metadata.json"@),
        },
        Mode::Ome => OutputNames {
            target: TargetNames::Create { output: stem + ".ome.tiff"@ },
            metadata: Some(stem + "_metadata.json"@),
        },
    }
}

/// Three texts one after the other.
fn joined(a: &str, b: &str, c: &str) -> (r: String)
    ensures
        r@ == a@ + b@ + c@,
{
    let mut r: String = a.to_owned();
    r.append(b);
    r.append(c);
    r
}

/// The names of the files that a run writes, from the stem and the extension of
/// the input, as far as it has any that are text, and from whether the input can
/// be renamed.
pub fn name_outputs(
    mode: Mode,
    stem: Option<&str>,
    extension: Option<&str>,
    rename: bool,
) -> (r: Outputs)
    ensures
        r@ == output_names(
            mode,
            stem_or_default(
                match stem {
                    Some(s) => Some(s@),
                    None => None,
                },
            ),
            extension_or_default(
                match extension {
                    Some(s) => Some(s@),
                    None => None,
                },
            ),
            rename,
        ),
{
    let stem: &str = match stem {
        Some(s) => s,
        None => "output",
    };
    let extension: &str = match extension {
        Some(s) => s,
        None => "tiff",
    };
    proof {
        reveal_strlit("");
        assert(stem@ + ".ome.tiff"@ + ""@ =~= stem@ + ".ome.tiff"@);
        assert(stem@ + "_metadata.json"@ + ""@ =~= stem@ + "_metadata.json"@);
    }
    match mode {
        Mode::Consolidate => {
            let target: Target = if rename {
                Target::Replace {
                    backup: joined(stem, "_original.", extension),
                    temporary: joined(stem, "_consolidating.", extension),
                }
            } else {
                Target::Create { output: joined(stem, "_copy.", extension) }
            };
            Outputs { target, metadata: None }
        },
        Mode::Plain => Outputs {
            target: Target::Create { output: joined(stem, "_plain.", extension) },
            metadata: Some(joined(stem, "_metadata.json", "")),
        },
        Mode::Ome => Outputs {
            target: Target::Create { output: joined(stem, ".ome.tiff", "") },
            metadata: Some(joined(stem, "_metadata.json", "")),
        },
    }
}

/// Whether a file on one device can be given a name in a directory on another.
pub open spec fn same_device(file: Option<u64>, directory: Option<u64>) -> bool {
    file is None || directory is None || file == directory
}

/// Whether a file can be given another name in its directory, from the devices
/// that the two are on, where they are known.
pub fn can_rename_in_place(file: Option<u64>, directory: Option<u64>) -> (r: bool)
    ensures
        r == same_device(file, directory),
{
    match (file, directory) {
        (Some(a), Some(b)) => a == b,
        _ => true,
    }
}

/// The file in whose way something stands.
#[derive(Clone, Copy, Debug, PartialEq, Eq, Structural)]
pub enum Conflict {
    Backup,
    Temporary,
    Output,
}

/// Which of the files that exist keeps a run from starting.
pub open spec fn conflict_of(
    target: TargetNames,
    backup_exists: bool,
    temporary_exists: bool,
    output_exists: bool,
) -> Option<Conflict> {
    match target {
        TargetNames::Replace { .. } => if backup_exists {
            Some(Conflict::Backup)
        } else if temporary_exists {
            Some(Conflict::Temporary)
        } else {
            None
        },
        TargetNames::Create { .. } => if output_exists {
            Some(Conflict::Output)
        } else {
            None
        },
    }
}

/// Which of the files that exist keeps a run from starting, from whether there is
/// one with the name of the backup, of the temporary file, of the output. The
/// backup is looked at first.
pub fn find_conflict(
    target: &Target,
    backup_exists: bool,
    temporary_exists: bool,
    output_exists: bool,
) -> (r: Option<Conflict>)
    ensures
        r == conflict_of(target@, backup_exists, temporary_exists, output_exists),
{
    match target {
        Target::Replace { .. } => if backup_exists {
            Some(Conflict::Backup)
        } else if temporary_exists {
            Some(Conflict::Temporary)
        } else {
            None
        },
        Target::Create { .. } => if output_exists {
            Some(Conflict::Output)
        } else {
            None
        },
    }
}

/// Whether a run with these names writes a metadata file.
pub open spec fn exports_metadata(names: OutputNames, metadata_exists: bool) -> bool {
    names.metadata is Some && !metadata_exists
}

/// Whether a run writes the metadata file, from whether there is one already. One
/// that exists is left alone.
pub fn writes_metadata(outputs: &Outputs, metadata_exists: bool) -> (r: bool)
    ensures
        r == exports_metadata(outputs@, metadata_exists),
{
    outputs.metadata.is_some() && !metadata_exists
}

/// The files of a run, that of the metadata among them, have names that differ
/// from one another and, with one exception, from that of the input: an OME-TIFF
/// file of a file whose extension is `ome.tiff`.
pub proof fn law_names_differ(mode: Mode, stem: Seq<char>, extension: Seq<char>, rename: bool)
    requires
        mode == Mode::Ome ==> extension != "ome.tiff"@,
    ensures
        ({
            let input = stem + "."@ + extension;
            let names = output_names(mode, stem, extension, rename);
            &&& match names.target {
                TargetNames::Replace { backup, temporary } => backup != temporary && backup != input
                    && temporary != input && names.metadata != Some(backup) && names.metadata
                    != Some(temporary),
                TargetNames::Create { output } => output != input && names.metadata != Some(output),
            }
            &&& names.metadata != Some(input)
        }),
{
    reveal_strlit(".");
    reveal_strlit("_original.");
    reveal_strlit("_consolidating.");
    reveal_strlit("_copy.");
    reveal_strlit("_plain.");
    reveal_strlit(".ome.tiff");
    reveal_strlit("ome.tiff");
    reveal_strlit("_metadata.json");
    let n = stem.len() as int;
    let input = stem + "."@ + extension;
    assert((stem + "_metadata.json"@)[n] == '_' && (stem + "_metadata.json"@)[n + 1] == 'm');
    assert((stem + "_plain."@ + extension)[n + 1] == 'p');
    assert((stem + ".ome.tiff"@)[n] == '.' && input[n] == '.');
    if mode == Mode::Ome && stem + ".ome.tiff"@ == input {
        assert(input.skip(n + 1) =~= extension);
        assert((stem + ".ome.tiff"@).skip(n + 1) =~= "ome.tiff"@);
    } else {
        assert((stem + "_original."@ + extension).len() == n + 10 + extension.len());
        assert((stem + "_consolidating."@ + extension).len() == n + 15 + extension.len());
        assert((stem + "_copy."@ + extension).len() == n + 6 + extension.len());
        assert((stem + "_plain."@ + extension).len() == n + 7 + extension.len());
        assert(input.len() == n + 1 + extension.len());
    }
}

/// Only a consolidation that can rename replaces the input; every other run makes a
/// new file and leaves the input as it is, and where metadata is stripped nothing
/// depends on renaming.
pub proof fn law_only_consolidation_replaces(
    mode: Mode,
    stem: Seq<char>,
    extension: Seq<char>,
    rename: bool,
)
    ensures
        output_names(mode, stem, extension, rename).target is Replace <==> (mode
            == Mode::Consolidate && rename),
        output_names(mode, stem, extension, rename).target is Create <==> !(mode
            == Mode::Consolidate && rename),
        mode != Mode::Consolidate ==> output_names(mode, stem, extension, rename) == output_names(
            mode,
            stem,
            extension,
            !rename,
        ),
        output_names(mode, stem, extension, rename).metadata is Some <==> mode
            != Mode::Consolidate,
{
}

/// Every file is named after the input: its stem, a mark, and its extension or that
/// of the new format.
pub proof fn law_names_of_files(mode: Mode, stem: Seq<char>, extension: Seq<char>, rename: bool)
    ensures
        ({
            let names = output_names(mode, stem, extension, rename);
            &&& names.target matches TargetNames::Replace { backup, temporary } ==> backup == stem
                + "_original."@ + extension && temporary == stem + "_consolidating."@ + extension
            &&& names.target matches TargetNames::Create { output } ==> output == stem + (if mode
                == Mode::Ome {
                ".ome.tiff"@
            } else if mode == Mode::Plain {
                "_plain."@ + extension
            } else {
                "_copy."@ + extension
            })
            &&& names.metadata matches Some(metadata) ==> metadata == stem + "_metadata.json"@
        }),
{
    assert(stem + "_plain."@ + extension =~= stem + ("_plain."@ + extension));
    assert(stem + "_copy."@ + extension =~= stem + ("_copy."@ + extension));
}

/// A stem and an extension that the input has are used; others are made up.
pub proof fn law_stem_and_extension(text: Seq<char>)
    ensures
        stem_or_default(Some(text)) == text,
        extension_or_default(Some(text)) == text,
        stem_or_default(None) == "output"@,
        extension_or_default(None) == "tiff"@,
{
}

/// A run starts if and only if none of the files that it is going to make exists.
/// Where it does not, the file named exists.
pub proof fn law_nothing_is_overwritten(
    target: TargetNames,
    backup_exists: bool,
    temporary_exists: bool,
    output_exists: bool,
)
    ensures
        ({
            let found = conflict_of(target, backup_exists, temporary_exists, output_exists);
            &&& target is Replace ==> (found is None <==> !backup_exists && !temporary_exists)
            &&& target is Create ==> (found is None <==> !output_exists)
            &&& found == Some(Conflict::Backup) <==> target is Replace && backup_exists
            &&& found == Some(Conflict::Temporary) <==> target is Replace && !backup_exists
                && temporary_exists
            &&& found == Some(Conflict::Output) <==> target is Create && output_exists
        }),
{
}

/// A run that strips metadata exports it, unless there is a file already.
pub proof fn law_stripped_metadata_is_exported(
    mode: Mode,
    stem: Seq<char>,
    extension: Seq<char>,
    rename: bool,
    exists: bool,
)
    ensures
        exports_metadata(output_names(mode, stem, extension, rename), exists) <==> mode
            != Mode::Consolidate && !exists,
{
}

/// Renaming is ruled out only where both devices are known and differ.
pub proof fn law_renaming(file: u64, directory: u64)
    ensures
        same_device(Some(file), Some(directory)) <==> file == directory,
        same_device(Some(file), None),
        same_device(None, Some(directory)),
        same_device(None, None),
{
}

} // verus!
