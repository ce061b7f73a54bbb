# bigtiff-consolidate

Rewrites little-endian BigTIFF files so that all image file directories (IFDs)
stand at the end of the file, where they can be read in one go. Files that were
written plane by plane have one IFD after each plane, which costs one seek per
plane over a network file system.

`src/` is a library verified with Verus. It does no input or output:

- a `BigTiffReader` works on the byte ranges that it was handed and names the
  range that it misses (`Error::NeedBytes`);
- `ConsolidationCheck` walks the chain of IFDs and tells whether a file is
  consolidated, with a number of out-of-place IFDs tolerated;
- a `Survey` collects the IFDs, the places of the image data and the metadata;
- `process_file` turns a survey into a `BigTiffWriter`, which hands out a list of
  actions: bytes to append, ranges of the input to copy, words to overwrite;
- `parse_args`, `name_outputs` and `find_conflict` hold the rules of the command
  line.

What is proved beyond the contracts of the functions stands in proof functions
whose names begin with `law_`. Among them: the output is read back with the same
entries, values and image data (`readback`); all of its IFDs stand behind all of
its image data, and the check finds it consolidated (`readback`, `recheck`,
`rewrite`); consolidating it again changes nothing (`again`); the check passes a
file exactly if no more IFDs than are allowed stand before the end of its image
data (`crossings`); decisions made from parts of a file are those that the whole file
would have led to (`partial`); metadata is exported on one line, and a text that
is exported as a JSON string is read back as it was (`json`).

Three things are believed without proof: `String::push` and
`String::from_utf8_lossy` of std, and that `simd_json::from_slice` answers by the
text alone whether it is JSON.

`app/` is the program around the library, `tests/` runs the library on concrete
files.

## Use

    bigtiff-consolidate [-plain | -ome] [-c N] input.tiff

Without a mode nothing but the layout changes, and only if more than `N` (10
unless given) IFDs are out of place: the input becomes `input_original.tiff`, or
the new file `input_copy.tiff` where renaming is not possible. `-plain` writes
`input_plain.tiff` without metadata, `-ome` writes `input.ome.tiff` with a minimal
OME-XML description; both export the metadata to `input_metadata.json`, one JSON
object per line. Existing files are never overwritten.
