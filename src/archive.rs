//! Reading and writing compressed archives in memory, through the `zip` crate.
use vstd::prelude::*;

verus! {

/// An entry as read: its name, compression method code, Unix mode if recorded, and
/// uncompressed content.
pub type EntryData = (Seq<char>, u16, Option<u32>, Seq<u8>);

/// An entry to write: its name, compression method code, Unix mode and content.
pub type PackData = (Seq<char>, u16, u32, Seq<u8>);

/// One entry of an archive as read.
#[derive(Clone, Debug)]
pub struct ArchiveEntry {
    pub name: String,
    pub method: u16,
    pub unix_mode: Option<u32>,
    pub content: Vec<u8>,
}

/// One entry of an archive to write.
#[derive(Clone, Debug)]
pub struct PackEntry {
    pub name: String,
    pub method: u16,
    pub mode: u32,
    pub content: Vec<u8>,
}

pub open spec fn entry_data(e: ArchiveEntry) -> EntryData {
    (e.name@, e.method, e.unix_mode, e.content@)
}

pub open spec fn pack_data(e: PackEntry) -> PackData {
    (e.name@, e.method, e.mode, e.content@)
}

/// What the `zip` reader makes of the archive bytes: its entries in order, or its error
/// message.
pub uninterp spec fn zip_unpacked(archive: Seq<u8>) -> Result<Seq<EntryData>, Seq<char>>;

/// What the `zip` writer makes of the entries: the archive bytes, or its error message.
pub uninterp spec fn zip_packed(entries: Seq<PackData>) -> Result<Seq<u8>, Seq<char>>;

pub open spec fn unpacked_view(r: Result<Vec<ArchiveEntry>, String>) -> Result<Seq<EntryData>, Seq<char>> {
    match r {
        Ok(v) => Ok(v@.map_values(|e: ArchiveEntry| entry_data(e))),
        Err(e) => Err(e@),
    }
}

pub open spec fn bytes_view(r: Result<Vec<u8>, String>) -> Result<Seq<u8>, Seq<char>> {
    match r {
        Ok(v) => Ok(v@),
        Err(e) => Err(e@),
    }
}

/// Relies on `zip::ZipArchive` (`new`, `by_index`, and reading each entry to its end):
/// every entry of the archive in order, with name, compression method, Unix mode and
/// uncompressed content, or the first error as text.
#[verifier::external_body]
#[allow(deprecated)]
pub fn unpack_archive(archive: &[u8]) -> (r: Result<Vec<ArchiveEntry>, String>)
    ensures
        unpacked_view(r) == zip_unpacked(archive@),
{
    let mut zip = zip::ZipArchive::new(std::io::Cursor::new(archive)).map_err(|e| e.to_string())?;
    let mut out = Vec::new();
    for i in 0..zip.len() {
        let mut f = zip.by_index(i).map_err(|e| e.to_string())?;
        let mut content = Vec::new();
        std::io::Read::read_to_end(&mut f, &mut content).map_err(|e| e.to_string())?;
        let (name, method, unix_mode) = (f.name().to_string(), f.compression().to_u16(), f.unix_mode());
        out.push(ArchiveEntry { name, method, unix_mode, content });
    }
    Ok(out)
}

/// Relies on `zip::ZipWriter` (`new`, `start_file` with the entry's compression method
/// and Unix permissions, writing the content, `finish`): the archive holding the entries
/// in order, or the first error as text.
#[verifier::external_body]
#[allow(deprecated)]
pub fn pack_archive(entries: &Vec<PackEntry>) -> (r: Result<Vec<u8>, String>)
    ensures
        bytes_view(r) == zip_packed(entries@.map_values(|e: PackEntry| pack_data(e))),
{
    let mut zip = zip::ZipWriter::new(std::io::Cursor::new(Vec::new()));
    for e in entries.iter() {
        let options = zip::write::SimpleFileOptions::default()
            .compression_method(zip::CompressionMethod::from_u16(e.method))
            .unix_permissions(e.mode);
        zip.start_file(e.name.as_str(), options).map_err(|x| x.to_string())?;
        std::io::Write::write_all(&mut zip, &e.content).map_err(|x| x.to_string())?;
    }
    zip.finish().map(|c| c.into_inner()).map_err(|x| x.to_string())
}

} // verus!
