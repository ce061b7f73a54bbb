use bigtiff_consolidate::consolidated::{check_ifds_consolidated, ConsolidationCheck};
use bigtiff_consolidate::entry::IfdEntry;
use bigtiff_consolidate::error::Error;
use bigtiff_consolidate::metadata::metadata_to_json_line;
use bigtiff_consolidate::order::sort_entries;
use bigtiff_consolidate::process::process_file;
use bigtiff_consolidate::reader::{get_offsets_and_counts, BigTiffReader};
use bigtiff_consolidate::source::{Mode, SourceIfd, Survey};
use bigtiff_consolidate::writer::{Action, BigTiffWriter};

/// Hands the reader the bytes that it asks for.
fn serve(file: &[u8], reader: &mut BigTiffReader, e: Error) -> Result<(), Error> {
    match e {
        Error::NeedBytes { offset, len } => {
            let end = offset.checked_add(len).ok_or(Error::UnexpectedEof)?;
            if end > file.len() as u64 {
                return Err(Error::UnexpectedEof);
            }
            reader.supply(offset, file[offset as usize..end as usize].to_vec());
            Ok(())
        }
        other => Err(other),
    }
}

fn open(file: &[u8]) -> Result<BigTiffReader, Error> {
    BigTiffReader::open(&file[..file.len().min(8)])
}

fn check(file: &[u8], allowed: u32) -> Result<bool, Error> {
    let mut reader = open(file)?;
    let mut check = ConsolidationCheck::new(allowed);
    loop {
        match check_ifds_consolidated(&mut check, &reader) {
            Ok(Some(verdict)) => return Ok(verdict),
            Ok(None) => reader.forget(),
            Err(e) => serve(file, &mut reader, e)?,
        }
    }
}

fn survey(file: &[u8], mode: Mode) -> Result<Survey, Error> {
    let mut reader = open(file)?;
    let mut survey = Survey::new(mode);
    loop {
        match survey.step(&reader) {
            Ok(true) => return Ok(survey),
            Ok(false) => reader.forget(),
            Err(e) => serve(file, &mut reader, e)?,
        }
    }
}

fn carry_out(source: &[u8], actions: Vec<Action>) -> Vec<u8> {
    let mut out: Vec<u8> = Vec::new();
    for action in actions {
        match action {
            Action::Append(b) => out.extend_from_slice(&b),
            Action::Copy { offset, len } => {
                out.extend_from_slice(&source[offset as usize..(offset + len) as usize])
            }
            Action::Patch { position, value } => {
                out[position as usize..position as usize + 8].copy_from_slice(&value.to_le_bytes())
            }
        }
    }
    out
}

fn rewrite(file: &[u8], mode: Mode) -> Vec<u8> {
    let mut writer = process_file(&survey(file, mode).unwrap()).unwrap();
    let end = writer.current_position();
    let out = carry_out(file, writer.flush());
    assert_eq!(out.len() as u64, end);
    out
}

fn header(first: u64) -> Vec<u8> {
    let mut f = vec![0x49, 0x49, 43, 0, 8, 0, 0, 0];
    f.extend_from_slice(&first.to_le_bytes());
    f
}

fn field(tag: u16, typ: u16, count: u64, value: [u8; 8]) -> IfdEntry {
    IfdEntry { tag, typ, count, value_or_offset: value }
}

fn word(tag: u16, typ: u16, v: u64) -> IfdEntry {
    field(tag, typ, 1, v.to_le_bytes())
}

fn put_ifd(f: &mut Vec<u8>, entries: &[IfdEntry], next: u64) -> u64 {
    let at = f.len() as u64;
    f.extend_from_slice(&(entries.len() as u64).to_le_bytes());
    for e in entries {
        f.extend_from_slice(&e.tag.to_le_bytes());
        f.extend_from_slice(&e.typ.to_le_bytes());
        f.extend_from_slice(&e.count.to_le_bytes());
        f.extend_from_slice(&e.value_or_offset);
    }
    f.extend_from_slice(&next.to_le_bytes());
    at
}

fn set_word(f: &mut [u8], at: u64, v: u64) {
    f[at as usize..at as usize + 8].copy_from_slice(&v.to_le_bytes());
}

/// A file of `planes` planes, each with its IFD right after its image data: two
/// strips of 5 and 3 bytes, a description outside the entry, a maker inside it
/// and a private tag.
fn interleaved(planes: u64) -> Vec<u8> {
    let mut f = header(0);
    let mut link: u64 = 8;
    for p in 0..planes {
        let a = f.len() as u64;
        f.extend_from_slice(&[p as u8, 1, 2, 3, 4]);
        let b = f.len() as u64;
        f.extend_from_slice(&[p as u8, 9, 8]);
        let places = f.len() as u64;
        f.extend_from_slice(&a.to_le_bytes());
        f.extend_from_slice(&b.to_le_bytes());
        let text = f.len() as u64;
        f.extend_from_slice(format!("plane number {:03}\0", p).as_bytes());
        let mut counts = [0u8; 8];
        counts[0] = 5;
        counts[4] = 3;
        let entries = vec![
            word(256, 3, 4),
            word(257, 3, 2),
            word(258, 3, 8),
            field(270, 2, 17, text.to_le_bytes()),
            field(271, 2, 5, *b"Acme\0\0\0\0"),
            field(273, 16, 2, places.to_le_bytes()),
            field(279, 4, 2, counts),
            word(65000, 4, 77),
        ];
        let at = put_ifd(&mut f, &entries, 0);
        set_word(&mut f, link, at);
        link = f.len() as u64 - 8;
    }
    f
}

/// What a reader finds in a file: for each IFD its entries with their values, and
/// its image data.
fn contents(file: &[u8]) -> Vec<(Vec<(u16, u16, u64, Vec<u8>)>, Vec<Vec<u8>>)> {
    let mut reader = open(file).unwrap();
    reader.supply(0, file.to_vec());
    let mut all = Vec::new();
    let mut at = reader.first_ifd_offset().unwrap();
    while at != 0 {
        let (entries, next) = reader.read_ifd(at).unwrap();
        let values = entries
            .iter()
            .filter(|e| e.tag != 273)
            .map(|e| (e.tag, e.typ, e.count, reader.read_value_data(e).unwrap()))
            .collect();
        let (offsets, counts) = get_offsets_and_counts(&entries, &reader).unwrap();
        let images = offsets
            .iter()
            .zip(counts.iter())
            .map(|(o, c)| file[*o as usize..(*o + *c) as usize].to_vec())
            .collect();
        all.push((values, images));
        at = next;
    }
    all
}

#[test]
fn headers() {
    assert_eq!(open(&[]).err(), Some(Error::UnexpectedEof));
    assert_eq!(open(b"MM").err(), Some(Error::NotLittleEndian));
    assert_eq!(open(b"II").err(), Some(Error::UnexpectedEof));
    assert_eq!(open(&[0x49, 0x49, 42, 0]).err(), Some(Error::NotBigTiff { magic: 42 }));
    assert_eq!(open(&[0x49, 0x49, 43, 0, 4, 0]).err(), Some(Error::InvalidOffsetSize));
    assert_eq!(open(&[0x49, 0x49, 43, 0, 8, 0]).err(), Some(Error::UnexpectedEof));
    assert!(open(&[0x49, 0x49, 43, 0, 8, 0, 0, 0]).is_ok());
}

#[test]
fn requests() {
    let f = interleaved(1);
    let mut reader = open(&f).unwrap();
    assert_eq!(reader.first_ifd_offset(), Err(Error::NeedBytes { offset: 8, len: 8 }));
    reader.supply(8, f[8..16].to_vec());
    let at = reader.first_ifd_offset().unwrap();
    assert_eq!(reader.read_ifd(at).err(), Some(Error::NeedBytes { offset: at, len: 8 }));
    reader.supply(at, f[at as usize..at as usize + 8].to_vec());
    assert_eq!(reader.read_ifd(at).err(), Some(Error::NeedBytes { offset: at + 8, len: 168 }));
    reader.supply(at + 8, f[at as usize + 8..].to_vec());
    let (entries, next) = reader.read_ifd(at).unwrap();
    assert_eq!((entries.len(), next), (8, 0));
    assert_eq!(reader.read_range(10, 3).unwrap(), f[10..13].to_vec());
    reader.forget();
    assert_eq!(reader.read_range(10, 3), Err(Error::NeedBytes { offset: 10, len: 3 }));
}

#[test]
fn too_many_entries() {
    let mut f = header(16);
    f.extend_from_slice(&u64::MAX.to_le_bytes());
    assert_eq!(check(&f, 10), Err(Error::TooManyEntries));
    assert_eq!(survey(&f, Mode::Consolidate).err(), Some(Error::TooManyEntries));
}

#[test]
fn truncated_file() {
    let f = interleaved(2);
    assert_eq!(check(&f[..f.len() - 1], 10), Err(Error::UnexpectedEof));
    assert_eq!(survey(&f[..f.len() - 1], Mode::Plain).err(), Some(Error::UnexpectedEof));
}

#[test]
fn values_too_large() {
    let mut f = header(16);
    put_ifd(&mut f, &[field(273, 16, u64::MAX, [0; 8])], 0);
    assert_eq!(check(&f, 10), Err(Error::ValueTooLarge));
    let mut f = header(16);
    put_ifd(&mut f, &[field(65000, 16, u64::MAX, [0; 8])], 0);
    assert_eq!(check(&f, 10), Ok(true));
    let s = survey(&f, Mode::Consolidate).unwrap();
    assert_eq!(process_file(&s).err(), Some(Error::ValueTooLarge));
    let s = survey(&f, Mode::Plain).unwrap();
    assert!(process_file(&s).is_ok());
}

#[test]
fn blocks_out_of_range() {
    let mut f = header(16);
    put_ifd(&mut f, &[word(273, 16, u64::MAX), word(279, 16, 1)], 0);
    assert_eq!(check(&f, 10), Err(Error::BlockOutOfRange));
}

#[test]
fn output_too_large() {
    let mut f = header(16);
    put_ifd(&mut f, &[word(273, 16, 0), word(279, 16, u64::MAX)], 0);
    let s = survey(&f, Mode::Consolidate).unwrap();
    assert_eq!(process_file(&s).err(), Some(Error::OutputTooLarge));
    let mut w = BigTiffWriter::create();
    assert_eq!(w.copy_bytes(0, u64::MAX - 17), Ok(16));
    assert_eq!(w.align(8), Err(Error::OutputTooLarge));
    assert_eq!(w.write_bytes(vec![1]), Ok(u64::MAX - 1));
    assert_eq!(w.write_bytes(vec![1]), Err(Error::OutputTooLarge));
}

#[test]
fn interleaved_files_are_told() {
    // The first plane puts its IFD behind its image data, so every plane but the
    // last has its IFD before image data of the next one.
    let f = interleaved(12);
    assert_eq!(check(&f, 10), Ok(false));
    assert_eq!(check(&f, 11), Ok(true));
    assert_eq!(check(&f, 12), Ok(true));
    assert_eq!(check(&interleaved(11), 10), Ok(true));
    assert_eq!(check(&interleaved(2), 0), Ok(false));
}

#[test]
fn first_ifd_at_the_beginning() {
    let mut f = header(16);
    let first = put_ifd(&mut f, &[word(273, 16, 0), word(279, 16, 4)], 0);
    let data = f.len() as u64;
    f.extend_from_slice(&[1, 2, 3, 4]);
    set_word(&mut f, first + 12 + 8, data);
    let entries = vec![word(273, 16, data), word(279, 16, 4)];
    let second = put_ifd(&mut f, &entries, 0);
    set_word(&mut f, first + 48, second);
    assert_eq!(check(&f, 0), Ok(false));
    assert_eq!(check(&f, 1), Ok(true));
}

#[test]
fn ifd_before_image_data_seen_earlier() {
    let mut f = header(0);
    let second = put_ifd(&mut f, &[word(273, 16, 16), word(279, 16, 0)], 0);
    let data = f.len() as u64;
    f.extend_from_slice(&[1, 2, 3, 4]);
    let first = put_ifd(&mut f, &[word(273, 16, data), word(279, 16, 4)], second);
    set_word(&mut f, 8, first);
    assert_eq!(check(&f, 0), Ok(false));
    assert_eq!(check(&f, 1), Ok(true));
}

#[test]
fn empty_chain() {
    assert_eq!(check(&header(0), 0), Ok(true));
    let s = survey(&header(0), Mode::Ome).unwrap();
    assert_eq!(s.ifds.len(), 0);
    assert_eq!(s.dimensions(), (0, 0, 16));
    assert_eq!(s.max_strip_size(), 0);
}

#[test]
fn surveys() {
    let f = interleaved(3);
    let s = survey(&f, Mode::Consolidate).unwrap();
    assert_eq!(s.ifds.len(), 3);
    assert_eq!(s.metadata.len(), 0);
    assert_eq!(s.dimensions(), (4, 2, 8));
    assert_eq!(s.max_strip_size(), 5);
    assert!(s.description().is_none());
    assert_eq!(s.ifds[0].offsets, vec![16, 21]);
    assert_eq!(s.ifds[0].counts, vec![5, 3]);
    assert_eq!(s.ifds[0].entries.len(), 8);
    let s = survey(&f, Mode::Plain).unwrap();
    let tags: Vec<u16> = s.ifds[1].entries.iter().map(|e| e.tag).collect();
    assert_eq!(tags, vec![256, 257, 258, 273, 279]);
    let lines: Vec<String> = s.metadata.iter().map(metadata_to_json_line).collect();
    assert_eq!(
        lines[2],
        "{\"ImageDescription\":\"plane number 002\",\"Make\":\"Acme\"}"
    );
    assert_eq!(lines.len(), 3);
}

#[test]
fn consolidated_output_holds_the_same() {
    let f = interleaved(12);
    let out = rewrite(&f, Mode::Consolidate);
    assert_eq!(contents(&out), contents(&f));
    let before: Vec<String> =
        survey(&f, Mode::Plain).unwrap().metadata.iter().map(metadata_to_json_line).collect();
    let after: Vec<String> =
        survey(&out, Mode::Plain).unwrap().metadata.iter().map(metadata_to_json_line).collect();
    assert_eq!(after, before);
}

#[test]
fn output_is_consolidated() {
    for mode in [Mode::Consolidate, Mode::Plain, Mode::Ome] {
        let out = rewrite(&interleaved(12), mode);
        assert_eq!(check(&out, 0), Ok(true));
        assert_eq!(check(&out, 10), Ok(true));
    }
}

#[test]
fn rewriting_twice_changes_nothing() {
    for mode in [Mode::Consolidate, Mode::Plain] {
        let once = rewrite(&interleaved(5), mode);
        assert_eq!(rewrite(&once, Mode::Consolidate), once);
    }
}

#[test]
fn rewriting_entries_out_of_order_moves_values() {
    let mut f = header(0);
    f.extend_from_slice(b"first text\0\0\0\0\0\0other text\0\0\0\0\0\0");
    let entries =
        vec![field(305, 2, 11, 16u64.to_le_bytes()), field(271, 2, 11, 32u64.to_le_bytes())];
    let at = put_ifd(&mut f, &entries, 0);
    set_word(&mut f, 8, at);
    let once = rewrite(&f, Mode::Consolidate);
    let twice = rewrite(&once, Mode::Consolidate);
    assert!(once != twice);
    assert_eq!(contents(&once), contents(&twice));
    assert_eq!(rewrite(&twice, Mode::Consolidate), twice);
}

#[test]
fn blocks_do_not_overlap() {
    let s = survey(&rewrite(&interleaved(6), Mode::Consolidate), Mode::Consolidate).unwrap();
    let mut end = 16;
    for ifd in &s.ifds {
        for (o, c) in ifd.offsets.iter().zip(ifd.counts.iter()) {
            assert!(end <= *o);
            end = *o + *c;
        }
    }
}

#[test]
fn verdict_counts_ifds_before_the_last_image() {
    for planes in 1..9u64 {
        let f = interleaved(planes);
        let mut reader = open(&f).unwrap();
        reader.supply(0, f.clone());
        let mut places: Vec<u64> = Vec::new();
        let mut at = reader.first_ifd_offset().unwrap();
        let mut end = 0;
        while at != 0 {
            places.push(at);
            let (entries, next) = reader.read_ifd(at).unwrap();
            let (offsets, counts) = get_offsets_and_counts(&entries, &reader).unwrap();
            for (o, c) in offsets.iter().zip(counts.iter()) {
                end = end.max(*o + *c);
            }
            at = next;
        }
        let out_of_place = places.iter().filter(|p| **p < end).count() as u32;
        assert_eq!(out_of_place as u64, planes - 1);
        for allowed in 0..10 {
            assert_eq!(check(&f, allowed), Ok(out_of_place <= allowed));
        }
    }
}

#[test]
fn exact_output() {
    let mut f = header(19);
    f.extend_from_slice(&[7, 8, 9]);
    put_ifd(&mut f, &[word(279, 4, 3), word(273, 4, 16)], 0);
    let out = rewrite(&f, Mode::Consolidate);
    let mut expected = header(24);
    expected.extend_from_slice(&[7, 8, 9, 0, 0, 0, 0, 0]);
    put_ifd(&mut expected, &[word(273, 16, 16), word(279, 4, 3)], 0);
    assert_eq!(out, expected);
}

#[test]
fn places_in_the_output() {
    let out = rewrite(&interleaved(3), Mode::Consolidate);
    let s = survey(&out, Mode::Consolidate).unwrap();
    assert_eq!(s.ifds.len(), 3);
    assert_eq!(s.ifds[0].offsets, vec![16, 22]);
    assert_eq!(s.ifds[1].offsets, vec![26, 32]);
    assert_eq!(s.ifds[2].offsets, vec![36, 42]);
    let mut reader = open(&out).unwrap();
    reader.supply(0, out.clone());
    // Image data ends at 45. The values of the first IFD are its description at 48
    // and its places at 72; the IFD itself follows at 88.
    assert_eq!(reader.first_ifd_offset(), Ok(88));
    let (entries, next) = reader.read_ifd(88).unwrap();
    assert_eq!(entries[3].offset(), 48);
    assert_eq!(entries[5].offset(), 72);
    assert_eq!(next, 88 + 16 + 20 * 8 + 24 + 16);
    assert_eq!(next % 8, 0);
}

#[test]
fn plain_output() {
    let f = interleaved(4);
    let out = rewrite(&f, Mode::Plain);
    let new = contents(&out);
    let old = contents(&f);
    assert_eq!(new.len(), 4);
    for (n, o) in new.iter().zip(old.iter()) {
        assert_eq!(n.1, o.1);
        let tags: Vec<u16> = n.0.iter().map(|v| v.0).collect();
        assert_eq!(tags, vec![256, 257, 258, 279]);
    }
    let s = survey(&out, Mode::Plain).unwrap();
    assert!(s.metadata.iter().all(|m| metadata_to_json_line(m) == "{}"));
}

#[test]
fn ome_output() {
    let f = interleaved(4);
    let s = survey(&f, Mode::Ome).unwrap();
    let xml = s.description().unwrap();
    assert!(xml.contains("SizeX=\"4\" SizeY=\"2\" SizeZ=\"4\""));
    let out = rewrite(&f, Mode::Ome);
    let new = contents(&out);
    assert_eq!(new.len(), 4);
    let mut text = xml.into_bytes();
    text.push(0);
    assert_eq!(new[0].0[3], (270, 2, text.len() as u64, text));
    for n in &new[1..] {
        assert!(n.0.iter().all(|v| v.0 != 270));
    }
    for (n, o) in new.iter().zip(contents(&f).iter()) {
        assert_eq!(n.1, o.1);
    }
}

#[test]
fn tiles_and_single_strips() {
    let mut f = header(0);
    f.extend_from_slice(&[1, 2, 3, 4, 5, 6]);
    let at = put_ifd(&mut f, &[word(324, 3, 16), word(325, 3, 6)], 0);
    set_word(&mut f, 8, at);
    let out = rewrite(&f, Mode::Consolidate);
    assert_eq!(contents(&out)[0].1, vec![vec![1, 2, 3, 4, 5, 6]]);
    let s = survey(&out, Mode::Consolidate).unwrap();
    let e = s.ifds[0].entries[0];
    assert_eq!((e.tag, e.typ, e.count), (324, 16, 1));
}

#[test]
fn places_without_sizes_are_dropped() {
    let mut f = header(16);
    let mut two = [0u8; 8];
    two[0] = 16;
    two[4] = 20;
    put_ifd(&mut f, &[field(273, 4, 2, two), word(279, 4, 4)], 0);
    let s = survey(&rewrite(&f, Mode::Consolidate), Mode::Consolidate).unwrap();
    assert_eq!(s.ifds[0].offsets, vec![16]);
    assert_eq!(s.ifds[0].counts, vec![4]);
}

#[test]
fn sizes_out_of_order_can_lead_astray() {
    // The sizes of tiles stand before those of strips, so that the latter count;
    // in the output, where entries are sorted, it is the other way round.
    let mut f = header(20);
    f.extend_from_slice(&[1, 2, 3, 4]);
    put_ifd(&mut f, &[word(325, 4, 1000), word(273, 4, 16), word(279, 4, 4)], 0);
    let out = rewrite(&f, Mode::Consolidate);
    assert_eq!(check(&f, 0), Ok(true));
    assert_eq!(check(&out, 0), Ok(false));
}

#[test]
fn more_tolerance_never_hurts() {
    for planes in 0..8 {
        let f = interleaved(planes);
        let mut passed = false;
        for allowed in 0..10 {
            let now = check(&f, allowed).unwrap();
            assert!(now || !passed);
            passed = now;
            if u64::from(allowed) >= planes {
                assert!(now);
            }
        }
    }
}

#[test]
fn sorting_is_stable() {
    let entries = vec![word(300, 3, 1), word(256, 3, 2), word(300, 3, 3), word(1, 3, 4), word(256, 3, 5)];
    let sorted: Vec<(u16, u64)> =
        sort_entries(&entries).iter().map(|e| (e.tag, e.offset())).collect();
    assert_eq!(sorted, vec![(1, 4), (256, 2), (256, 5), (300, 1), (300, 3)]);
}

#[test]
fn last_of_several_entries_counts() {
    let mut reader = open(&header(0)).unwrap();
    reader.supply(0, header(0));
    let entries = vec![word(273, 4, 1), word(279, 4, 2), word(324, 4, 3), word(279, 4, 4)];
    assert_eq!(get_offsets_and_counts(&entries, &reader), Ok((vec![3], vec![4])));
    let other = vec![word(273, 5, 1)];
    assert_eq!(get_offsets_and_counts(&other, &reader), Ok((vec![], vec![])));
}

#[test]
fn plans_can_be_made_by_hand() {
    let mut s = Survey::new(Mode::Consolidate);
    s.ifds.push(SourceIfd { entries: vec![], offsets: vec![], counts: vec![] });
    let mut w = process_file(&s).unwrap();
    let out = carry_out(&[], w.flush());
    let mut expected = header(16);
    put_ifd(&mut expected, &[], 0);
    assert_eq!(out, expected);
    assert!(w.flush().is_empty());
    assert_eq!(w.current_position(), 32);
}
