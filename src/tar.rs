use crate::error::tar_error::{TarError, TarErrorKind};
use crate::error::{Error, ErrorType};
use crate::tar::octal::octal_digits;
use crate::tar::tar_record::{
    decode_header_spec, encodable, entry_bytes, header_bytes, header_model, is_zero_block,
    lemma_header_round_trip, lemma_raw_header_len, names_survive_padding, read_entry_spec,
    size_matches, with_data, zeros, EntryModel, TarRecord,
};
use crate::{lemma_padding_aligns, padding_len, BLOCK_SIZE};
use vstd::prelude::*;

pub mod octal;
pub mod tar_record;

verus! {

/// What the command-line front end asks of an archive.
#[derive(Debug, Clone, Copy, PartialEq, Eq, Structural)]
pub enum TarMode {
    Create,
    Extract,
    Append,
}

/// An archive held as its ordered sequence of entries.
pub struct Tar {
    files: Vec<TarRecord>,
}

/// The models of a sequence of records.
pub open spec fn records_view(files: Seq<TarRecord>) -> Seq<EntryModel> {
    files.map_values(|r: TarRecord| r@)
}

/// The stream of a sequence of entries, one after the other, without the end marker.
pub open spec fn entries_bytes(es: Seq<EntryModel>) -> Seq<u8>
    decreases es.len(),
{
    if es.len() == 0 {
        Seq::empty()
    } else {
        entry_bytes(es[0]) + entries_bytes(es.skip(1))
    }
}

/// The complete archive stream: every entry, then two all-zero blocks.
pub open spec fn archive_bytes(es: Seq<EntryModel>) -> Seq<u8> {
    entries_bytes(es) + zeros(1024)
}

/// `es` put in front of the entries of a parse outcome.
pub open spec fn prepend(
    es: Seq<EntryModel>,
    r: Result<Seq<EntryModel>, TarErrorKind>,
) -> Result<Seq<EntryModel>, TarErrorKind> {
    match r {
        Ok(t) => Ok(es + t),
        Err(k) => Err(k),
    }
}

/// The entries of the stream `s`, read until two consecutive all-zero header blocks;
/// `empties` counts the all-zero blocks just read.
pub open spec fn parse_entries(s: Seq<u8>, empties: nat) -> Result<Seq<EntryModel>, TarErrorKind>
    decreases s.len(),
{
    match read_entry_spec(s) {
        Err(TarErrorKind::EmptyHeaderBlock) => {
            if empties >= 1 {
                Ok(Seq::empty())
            } else {
                parse_entries(s.skip(512), 1)
            }
        },
        Err(k) => Err(k),
        Ok((e, n)) => prepend(seq![e], parse_entries(s.skip(n as int), 0)),
    }
}

/// Why an input cannot be taken for an archive to extract, if it cannot.
pub open spec fn input_fault(is_dir: bool, extension: Option<&[u8]>) -> Option<TarErrorKind> {
    if is_dir {
        Some(TarErrorKind::InvalidFormatDirectory)
    } else {
        match extension {
            None => Some(TarErrorKind::InvalidFormatMissingExtension),
            Some(x) => if x@ == seq![116u8, 97u8, 114u8] {
                None
            } else {
                Some(TarErrorKind::InvalidFormatWrongExtension)
            },
        }
    }
}

impl View for Tar {
    type V = Seq<EntryModel>;

    closed spec fn view(&self) -> Seq<EntryModel> {
        records_view(self.files@)
    }
}

impl Tar {
    /// Whether the size of every entry is the length of its content.
    pub open spec fn wf(&self) -> bool {
        forall|i: int| 0 <= i < self@.len() ==> size_matches(#[trigger] self@[i])
    }

    /// Makes an archive of `files`, in their order, to be created.
    pub fn new(files: Vec<TarRecord>, mode: TarMode) -> (r: Tar)
        requires
            mode == TarMode::Create,
            forall|i: int| 0 <= i < files@.len() ==> size_matches(#[trigger] files@[i]@),
        ensures
            r@ == records_view(files@),
            r.wf(),
    {
        Tar::create(files)
    }

    fn create(files: Vec<TarRecord>) -> (r: Tar)
        requires
            forall|i: int| 0 <= i < files@.len() ==> size_matches(#[trigger] files@[i]@),
        ensures
            r@ == records_view(files@),
            r.wf(),
    {
        let r = Tar { files };
        proof {
            assert forall|i: int| 0 <= i < r@.len() implies size_matches(#[trigger] r@[i]) by {
                assert(r@[i] == r.files@[i]@);
            }
        }
        r
    }

    /// The entries of the archive, in stream order.
    pub fn files(&self) -> (r: &[TarRecord])
        ensures
            records_view(r@) == self@,
    {
        self.files.as_slice()
    }

    /// Produces the archive stream: each entry's header, content and padding, then
    /// two all-zero blocks. Fails when a value of some entry does not fit its field.
    pub fn write_tar(&self) -> (r: crate::error::Result<Vec<u8>>)
        requires
            self.wf(),
        ensures
            r is Ok <==> forall|i: int| 0 <= i < self@.len() ==> encodable(#[trigger] self@[i]),
            r matches Ok(b) ==> b@ == archive_bytes(self@),
            r matches Err(e) ==> e@ matches ErrorType::Tar(te) && te.kind
                == TarErrorKind::EncodingOverflow,
    {
        let mut out: Vec<u8> = Vec::new();
        let mut i: usize = 0;
        while i < self.files.len()
            invariant
                self.wf(),
                i <= self@.len(),
                self@.len() == self.files@.len(),
                out@ == entries_bytes(self@.take(i as int)),
                forall|j: int| 0 <= j < i ==> encodable(#[trigger] self@[j]),
            decreases self@.len() - i,
        {
            let record = &self.files[i];
            proof {
                assert(record@ == self@[i as int]);
            }
            match record.write_record(&mut out) {
                Ok(()) => {},
                Err(e) => {
                    return Err(Error::new(ErrorType::Tar(e)));
                },
            }
            proof {
                lemma_entries_bytes_push(self@.take(i as int), self@[i as int]);
                assert(self@.take(i as int).push(self@[i as int]) =~= self@.take(i + 1));
            }
            i = i + 1;
        }
        proof {
            assert(self@.take(i as int) =~= self@);
        }
        let mut k: usize = 0;
        let ghost body = out@;
        while k < 2 * BLOCK_SIZE
            invariant
                k <= 2 * BLOCK_SIZE,
                out@ == body + zeros(k as nat),
            decreases 2 * BLOCK_SIZE - k,
        {
            out.push(0);
            k = k + 1;
            proof {
                assert(out@ =~= body + zeros(k as nat));
            }
        }
        Ok(out)
    }

    /// Reads an archive stream back into its entries, stopping at two consecutive
    /// all-zero header blocks. A bad magic value, a checksum mismatch, a malformed field
    /// or a stream that ends early aborts the whole read.
    pub fn extract(archive: &[u8]) -> (r: crate::error::Result<Tar>)
        ensures
            match parse_entries(archive@, 0) {
                Ok(es) => r matches Ok(t) && t@ == es && t.wf(),
                Err(k) => r matches Err(e) && e@ matches ErrorType::Tar(te) && te.kind == k,
            },
    {
        let total = archive.len();
        let mut files: Vec<TarRecord> = Vec::new();
        let mut pos: usize = 0;
        let mut empties: u8 = 0;
        proof {
            assert(archive@.skip(0) =~= archive@);
            assert(prepend(Seq::empty(), parse_entries(archive@, 0)) == parse_entries(archive@, 0))
                by {
                if let Ok(t) = parse_entries(archive@, 0) {
                    assert(Seq::<EntryModel>::empty() + t =~= t);
                }
            }
        }
        loop
            invariant
                pos <= archive@.len(),
                total == archive@.len(),
                empties <= 1,
                prepend(records_view(files@), parse_entries(archive@.skip(pos as int), empties as nat))
                    == parse_entries(archive@, 0),
                forall|i: int| 0 <= i < files@.len() ==> size_matches(#[trigger] files@[i]@),
            decreases archive@.len() - pos,
        {
            let ghost s = archive@.skip(pos as int);
            assert(s.len() == archive@.len() - pos);
            let ghost before = records_view(files@);
            match TarRecord::new_from_file(archive, pos) {
                Ok((record, next)) => {
                    let ghost e = record@;
                    let ghost n = (next - pos) as nat;
                    proof {
                        assert(s.skip(n as int) =~= archive@.skip(next as int));
                    }
                    files.push(record);
                    proof {
                        assert(records_view(files@) =~= before.push(e));
                        if let Ok(t) = parse_entries(s.skip(n as int), 0) {
                            assert(before + (seq![e] + t) =~= before.push(e) + t);
                        }
                    }
                    pos = next;
                    empties = 0;
                },
                Err(err) => {
                    if let TarErrorKind::EmptyHeaderBlock = err.kind {
                        if empties >= 1 {
                            let t = Tar::create(files);
                            proof {
                                assert(before + Seq::<EntryModel>::empty() =~= before);
                            }
                            return Ok(t);
                        }
                        proof {
                            assert(read_entry_spec(s) matches Err(TarErrorKind::EmptyHeaderBlock));
                            assert(s.len() >= 512);
                            assert(s.skip(512) =~= archive@.skip(pos + 512));
                        }
                        empties = 1;
                        pos = pos + 512;
                    } else {
                        return Err(Error::new(ErrorType::Tar(err)));
                    }
                },
            }
        }
    }

    /// Checks, before anything is read, that an input names an archive: it must not be
    /// a directory, and its extension must be `tar`.
    pub fn check_extract_input(is_dir: bool, extension: Option<&[u8]>) -> (r: Result<(), TarError>)
        ensures
            match input_fault(is_dir, extension) {
                None => r is Ok,
                Some(k) => r matches Err(e) && e.kind == k,
            },
    {
        if is_dir {
            return Err(TarError::new(TarErrorKind::InvalidFormatDirectory, "expected a tar file, found a directory"));
        }
        match extension {
            Some(ext) => {
                let is_tar = ext.len() == 3 && ext[0] == 116 && ext[1] == 97 && ext[2] == 114;
                proof {
                    if is_tar {
                        assert(ext@ =~= seq![116u8, 97u8, 114u8]);
                    } else if ext@ == seq![116u8, 97u8, 114u8] {
                        assert(ext@[0] == 116 && ext@[1] == 97 && ext@[2] == 114);
                    }
                }
                if is_tar {
                    Ok(())
                } else {
                    Err(TarError::new(TarErrorKind::InvalidFormatWrongExtension, "expected a file with the tar extension"))
                }
            },
            None => Err(TarError::new(TarErrorKind::InvalidFormatMissingExtension, "input file has no extension, unknown if it is a tar file")),
        }
    }
}

/// Whether `e` can be written to an archive and read back unchanged.
pub open spec fn archivable(e: EntryModel) -> bool {
    &&& encodable(e)
    &&& names_survive_padding(e)
    &&& size_matches(e)
}

/// Every entry takes a whole number of blocks: its header is one block, and its
/// content with its padding fills whole blocks.
pub proof fn lemma_entry_block_aligned(e: EntryModel)
    requires
        encodable(e),
    ensures
        header_bytes(e).len() == 512,
        entry_bytes(e).len() % 512 == 0,
        entry_bytes(e).len() == 512 + e.data.len() + padding_len(e.data.len()),
{
    reveal(entry_bytes);
    lemma_raw_header_len(e);
    lemma_padding_aligns(e.data.len());
}

pub proof fn lemma_entries_block_aligned(es: Seq<EntryModel>)
    requires
        forall|i: int| 0 <= i < es.len() ==> encodable(#[trigger] es[i]),
    ensures
        entries_bytes(es).len() % 512 == 0,
    decreases es.len(),
{
    if es.len() > 0 {
        assert(encodable(es[0]));
        lemma_entry_block_aligned(es[0]);
        assert forall|i: int| 0 <= i < es.skip(1).len() implies encodable(#[trigger] es.skip(1)[i]) by {
            assert(es.skip(1)[i] == es[i + 1]);
        }
        lemma_entries_block_aligned(es.skip(1));
    }
}

/// An archive ends with exactly two all-zero blocks, which start on a block boundary
/// right after the last entry; nothing follows them.
pub proof fn lemma_archive_ends_with_marker(es: Seq<EntryModel>)
    requires
        forall|i: int| 0 <= i < es.len() ==> encodable(#[trigger] es[i]),
    ensures
        ({
            let a = archive_bytes(es);
            &&& a.len() % 512 == 0
            &&& a.len() == entries_bytes(es).len() + 1024
            &&& a.subrange(0, a.len() - 1024) == entries_bytes(es)
            &&& a.subrange(a.len() - 1024, a.len() as int) == zeros(1024)
        }),
{
    lemma_entries_block_aligned(es);
    let a = archive_bytes(es);
    assert(a.subrange(0, a.len() - 1024) =~= entries_bytes(es));
    assert(a.subrange(a.len() - 1024, a.len() as int) =~= zeros(1024));
}

/// A zero-byte file takes a single header block, whose size field is all zero digits,
/// and no payload block.
pub proof fn lemma_empty_file_entry(e: EntryModel)
    requires
        encodable(e),
        size_matches(e),
        e.data.len() == 0,
    ensures
        entry_bytes(e) == header_bytes(e),
        entry_bytes(e).len() == 512,
        header_bytes(e).subrange(124, 135) == Seq::new(11, |_i: int| 48u8),
{
    reveal(entry_bytes);
    lemma_raw_header_len(e);
    lemma_padding_aligns(0);
    crate::tar::tar_record::lemma_header_layout(e);
    lemma_zero_digits(11);
    assert(entry_bytes(e) =~= header_bytes(e));
}

proof fn lemma_zero_digits(w: nat)
    ensures
        octal_digits(0, w) == Seq::new(w, |_i: int| 48u8),
    decreases w,
{
    if w > 0 {
        lemma_zero_digits((w - 1) as nat);
        assert(octal_digits(0, w) =~= Seq::new(w, |_i: int| 48u8));
    } else {
        assert(octal_digits(0, w) =~= Seq::new(w, |_i: int| 48u8));
    }
}

/// An entry followed by anything reads back as that entry, and the read stops right
/// where the rest begins.
proof fn lemma_read_entry_front(e: EntryModel, rest: Seq<u8>)
    requires
        archivable(e),
    ensures
        read_entry_spec(entry_bytes(e) + rest) == Ok::<(EntryModel, nat), TarErrorKind>(
            (e, entry_bytes(e).len()),
        ),
        (entry_bytes(e) + rest).skip(entry_bytes(e).len() as int) == rest,
{
    reveal(entry_bytes);
    lemma_raw_header_len(e);
    lemma_header_round_trip(e);
    let t = entry_bytes(e) + rest;
    let h = header_bytes(e);
    assert(t.subrange(0, 512) =~= h);
    assert(t.subrange(512, 512 + e.size as int) =~= e.data);
    assert(with_data(header_model(e), e.data) == e);
    assert(t.skip(entry_bytes(e).len() as int) =~= rest);
}

proof fn lemma_zero_blocks_end(s: Seq<u8>, empties: nat)
    requires
        s == zeros(1024) || (empties >= 1 && s == zeros(512)),
    ensures
        parse_entries(s, empties) == Ok::<Seq<EntryModel>, TarErrorKind>(Seq::empty()),
    decreases s.len(),
{
    assert(s.subrange(0, 512) =~= zeros(512));
    assert(is_zero_block(zeros(512)));
    assert(decode_header_spec(s.subrange(0, 512)) matches Err(TarErrorKind::EmptyHeaderBlock));
    if empties == 0 {
        assert(s.skip(512) =~= zeros(512));
        lemma_zero_blocks_end(s.skip(512), 1);
    }
}

/// Writing entries into an archive and reading the archive back gives the same entries,
/// names, contents, sizes, times, modes and owners included.
pub proof fn lemma_archive_round_trip(es: Seq<EntryModel>)
    requires
        forall|i: int| 0 <= i < es.len() ==> archivable(#[trigger] es[i]),
    ensures
        parse_entries(archive_bytes(es), 0) == Ok::<Seq<EntryModel>, TarErrorKind>(es),
    decreases es.len(),
{
    if es.len() == 0 {
        assert(archive_bytes(es) =~= zeros(1024));
        lemma_zero_blocks_end(archive_bytes(es), 0);
        assert(Seq::<EntryModel>::empty() =~= es);
    } else {
        let e = es[0];
        let tail = es.skip(1);
        assert(archivable(e));
        assert forall|i: int| 0 <= i < tail.len() implies archivable(#[trigger] tail[i]) by {
            assert(tail[i] == es[i + 1]);
        }
        lemma_archive_round_trip(tail);
        let s = archive_bytes(es);
        assert(s =~= entry_bytes(e) + archive_bytes(tail));
        lemma_read_entry_front(e, archive_bytes(tail));
        lemma_entry_block_aligned(e);
        assert(seq![e] + tail =~= es);
    }
}

pub proof fn lemma_entries_bytes_push(es: Seq<EntryModel>, e: EntryModel)
    ensures
        entries_bytes(es.push(e)) == entries_bytes(es) + entry_bytes(e),
    decreases es.len(),
{
    let p = es.push(e);
    if es.len() == 0 {
        assert(p.skip(1) =~= Seq::<EntryModel>::empty());
        assert(entries_bytes(Seq::<EntryModel>::empty()) == Seq::<u8>::empty());
        assert(p[0] == e);
        assert(entries_bytes(p) =~= entries_bytes(es) + entry_bytes(e));
    } else {
        assert(p.skip(1) =~= es.skip(1).push(e));
        lemma_entries_bytes_push(es.skip(1), e);
        assert(p[0] == es[0]);
        assert(entries_bytes(p) == entry_bytes(es[0]) + entries_bytes(es.skip(1).push(e)));
        assert(entries_bytes(p) =~= entries_bytes(es) + entry_bytes(e));
    }
}

} // verus!
