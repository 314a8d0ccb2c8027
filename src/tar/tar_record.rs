use crate::error::tar_error::{TarError, TarErrorKind};
use crate::{padding_for, padding_len};
use crate::tar::octal::{
    all_octal_digits, lemma_octal_digits_shape, lemma_octal_round_trip, lemma_octal_value_bound, octal_digits, parse_octal,
    parse_octal_spec, pow8, push_octal,
};
use vstd::prelude::*;

verus! {

/// The kind of an archive entry, stored in the header's type-flag byte.
#[derive(Debug, Clone, Copy, PartialEq, Eq, Structural)]
pub enum TypeFlag {
    ARegFile,
    Link,
    Directory,
}

/// The type-flag byte written for each kind: ASCII `0`, `1` and `5`.
pub open spec fn type_flag_byte(t: TypeFlag) -> u8 {
    match t {
        TypeFlag::ARegFile => 48,
        TypeFlag::Link => 49,
        TypeFlag::Directory => 53,
    }
}

/// The kind that a type-flag byte stands for, if any.
pub open spec fn decode_type_flag(b: u8) -> Option<TypeFlag> {
    if b == 48 {
        Some(TypeFlag::ARegFile)
    } else if b == 49 {
        Some(TypeFlag::Link)
    } else if b == 53 {
        Some(TypeFlag::Directory)
    } else {
        None
    }
}

/// The mathematical content of one archive entry: its metadata and its payload.
pub ghost struct EntryModel {
    pub name: Seq<u8>,
    pub mode: nat,
    pub user_id: nat,
    pub group_id: nat,
    pub size: nat,
    pub modified_time: int,
    pub type_flag: TypeFlag,
    pub link_name: Seq<u8>,
    pub user_name: Seq<u8>,
    pub group_name: Seq<u8>,
    pub data: Seq<u8>,
}

pub open spec fn zeros(n: nat) -> Seq<u8> {
    Seq::new(n, |_i: int| 0u8)
}

/// `s` followed by NUL bytes up to `width` bytes.
pub open spec fn padded(s: Seq<u8>, width: nat) -> Seq<u8> {
    s + zeros((width - s.len()) as nat)
}

/// `s` without its trailing NUL bytes.
pub open spec fn trim_nuls(s: Seq<u8>) -> Seq<u8>
    decreases s.len(),
{
    if s.len() > 0 && s.last() == 0 {
        trim_nuls(s.drop_last())
    } else {
        s
    }
}

/// An 8-byte numeric field: six octal digits, a space and a NUL.
pub open spec fn short_field(v: nat) -> Seq<u8> {
    octal_digits(v, 6) + seq![32u8, 0u8]
}

/// A 12-byte numeric field: eleven octal digits and a space.
pub open spec fn long_field(v: nat) -> Seq<u8> {
    octal_digits(v, 11) + seq![32u8]
}

/// The stored checksum: six octal digits, a NUL and a space.
pub open spec fn checksum_field(sum: nat) -> Seq<u8> {
    octal_digits(sum, 6) + seq![0u8, 32u8]
}

/// The checksum field as it counts in the sum: eight spaces.
pub open spec fn blank_checksum() -> Seq<u8> {
    Seq::new(8, |_i: int| 32u8)
}

/// The magic value `ustar\0`.
pub open spec fn magic() -> Seq<u8> {
    seq![117u8, 115u8, 116u8, 97u8, 114u8, 0u8]
}

/// The version field `00`.
pub open spec fn version() -> Seq<u8> {
    seq![48u8, 48u8]
}

/// The unsigned sum of all bytes of `s`.
pub open spec fn byte_sum(s: Seq<u8>) -> nat
    decreases s.len(),
{
    if s.len() == 0 {
        0
    } else {
        byte_sum(s.drop_last()) + s.last() as nat
    }
}

/// Whether `name` can be cut at the separator at index `i`: the part before it fits the
/// prefix field, and the non-empty part after it fits the name field.
pub open spec fn is_split_at(name: Seq<u8>, i: int) -> bool {
    &&& 0 < i <= 155
    &&& i < name.len()
    &&& name[i] == 47
    &&& 0 < name.len() - i - 1 <= 100
}

/// The first place at or after `i` where `name` can be cut.
pub open spec fn split_from(name: Seq<u8>, i: int) -> Option<int>
    decreases 156 - i,
{
    if i > 155 {
        None
    } else if is_split_at(name, i) {
        Some(i)
    } else {
        split_from(name, i + 1)
    }
}

/// What the name field and the prefix field hold for `name`, if it fits them: a name of
/// up to 100 bytes stands alone, a longer one is cut at its first fitting separator.
pub open spec fn name_parts(name: Seq<u8>) -> Option<(Seq<u8>, Seq<u8>)> {
    if name.len() <= 100 {
        Some((name, Seq::empty()))
    } else {
        match split_from(name, 1) {
            Some(i) => Some((name.skip(i + 1), name.take(i))),
            None => None,
        }
    }
}

pub open spec fn name_field(name: Seq<u8>) -> Seq<u8> {
    match name_parts(name) {
        Some(p) => p.0,
        None => name,
    }
}

pub open spec fn prefix_field(name: Seq<u8>) -> Seq<u8> {
    match name_parts(name) {
        Some(p) => p.1,
        None => Seq::empty(),
    }
}

/// The full name that a name field and a prefix field stand for.
pub open spec fn join_name(name: Seq<u8>, prefix: Seq<u8>) -> Seq<u8> {
    if prefix.len() == 0 {
        name
    } else {
        prefix.push(47) + name
    }
}

/// Whether every metadata value of `e` fits in its header field.
pub open spec fn encodable(e: EntryModel) -> bool {
    &&& name_parts(e.name) is Some
    &&& e.link_name.len() <= 100
    &&& e.user_name.len() <= 32
    &&& e.group_name.len() <= 32
    &&& e.mode < pow8(6)
    &&& e.user_id < pow8(6)
    &&& e.group_id < pow8(6)
    &&& e.size < pow8(11)
    &&& 0 <= e.modified_time < pow8(11)
}

/// The header of `e` with the checksum field blanked to spaces.
pub open spec fn raw_header(e: EntryModel) -> Seq<u8> {
    padded(name_field(e.name), 100) + short_field(e.mode) + short_field(e.user_id) + short_field(e.group_id)
        + long_field(e.size) + long_field(e.modified_time as nat) + blank_checksum() + seq![
        type_flag_byte(e.type_flag),
    ] + padded(e.link_name, 100) + magic() + version() + padded(e.user_name, 32) + padded(
        e.group_name,
        32,
    ) + short_field(0) + short_field(0) + padded(prefix_field(e.name), 155) + zeros(12)
}

/// The 512-byte header block of `e`: the blanked header with its checksum filled in.
pub open spec fn header_bytes(e: EntryModel) -> Seq<u8> {
    let raw = raw_header(e);
    raw.subrange(0, 148) + checksum_field(byte_sum(raw)) + raw.subrange(156, 512)
}

/// The sum that a header's checksum must equal: its bytes with the checksum field as spaces.
pub open spec fn checked_sum(h: Seq<u8>) -> nat {
    byte_sum(h.subrange(0, 148) + blank_checksum() + h.subrange(156, 512))
}

pub open spec fn is_zero_block(h: Seq<u8>) -> bool {
    forall|i: int| 0 <= i < h.len() ==> #[trigger] h[i] == 0
}

/// Whether each numeric field of `h` holds octal digits.
pub open spec fn numeric_fields_valid(h: Seq<u8>) -> bool {
    &&& all_octal_digits(h.subrange(100, 106))
    &&& all_octal_digits(h.subrange(108, 114))
    &&& all_octal_digits(h.subrange(116, 122))
    &&& all_octal_digits(h.subrange(124, 135))
    &&& all_octal_digits(h.subrange(136, 147))
}

/// The outcome of decoding the 512-byte block `h`.
pub open spec fn decode_header_spec(h: Seq<u8>) -> Result<EntryModel, TarErrorKind> {
    if is_zero_block(h) {
        Err(TarErrorKind::EmptyHeaderBlock)
    } else if h.subrange(257, 263) != magic() {
        Err(TarErrorKind::InvalidMagicValue)
    } else if parse_octal_spec(h.subrange(148, 154)) != Some(checked_sum(h)) {
        Err(TarErrorKind::InvalidChecksum)
    } else if !numeric_fields_valid(h) {
        Err(TarErrorKind::InvalidNumericField)
    } else if decode_type_flag(h[156]) is None {
        Err(TarErrorKind::InvalidTypeFlag)
    } else {
        Ok(
            EntryModel {
                name: join_name(trim_nuls(h.subrange(0, 100)), trim_nuls(h.subrange(345, 500))),
                mode: parse_octal_spec(h.subrange(100, 106))->0,
                user_id: parse_octal_spec(h.subrange(108, 114))->0,
                group_id: parse_octal_spec(h.subrange(116, 122))->0,
                size: parse_octal_spec(h.subrange(124, 135))->0,
                modified_time: parse_octal_spec(h.subrange(136, 147))->0 as int,
                type_flag: decode_type_flag(h[156])->0,
                link_name: trim_nuls(h.subrange(157, 257)),
                user_name: trim_nuls(h.subrange(265, 297)),
                group_name: trim_nuls(h.subrange(297, 329)),
                data: Seq::empty(),
            },
        )
    }
}

pub proof fn lemma_byte_sum_bound(s: Seq<u8>)
    ensures
        byte_sum(s) <= 255 * s.len(),
    decreases s.len(),
{
    if s.len() > 0 {
        lemma_byte_sum_bound(s.drop_last());
    }
}

/// Appends `s` and NUL bytes up to `width` bytes in all.
fn push_padded(out: &mut Vec<u8>, s: &[u8], width: usize)
    requires
        s@.len() <= width,
    ensures
        final(out)@ == old(out)@ + padded(s@, width as nat),
{
    let ghost start = out@;
    let mut i: usize = 0;
    while i < s.len()
        invariant
            i <= s@.len(),
            out@ == start + s@.subrange(0, i as int),
        decreases s@.len() - i,
    {
        out.push(s[i]);
        i = i + 1;
        proof {
            assert(out@ =~= start + s@.subrange(0, i as int));
        }
    }
    while i < width
        invariant
            s@.len() <= i <= width,
            out@ == start + s@ + zeros((i - s@.len()) as nat),
        decreases width - i,
    {
        out.push(0);
        i = i + 1;
        proof {
            assert(out@ =~= start + s@ + zeros((i - s@.len()) as nat));
        }
    }
    proof {
        assert(out@ =~= start + padded(s@, width as nat));
    }
}

/// Appends an 8-byte numeric field for `v`.
fn push_short_field(out: &mut Vec<u8>, v: u64)
    ensures
        final(out)@ == old(out)@ + short_field(v as nat),
{
    push_octal(v, 6, out);
    out.push(32);
    out.push(0);
    proof {
        assert(final(out)@ =~= old(out)@ + short_field(v as nat));
    }
}

/// Appends a 12-byte numeric field for `v`.
fn push_long_field(out: &mut Vec<u8>, v: u64)
    ensures
        final(out)@ == old(out)@ + long_field(v as nat),
{
    push_octal(v, 11, out);
    out.push(32);
    proof {
        assert(final(out)@ =~= old(out)@ + long_field(v as nat));
    }
}

/// The sum of the bytes of `h`, with the checksum field counted as spaces when `blank` is set.
fn sum_bytes(h: &[u8], blank: bool) -> (r: u64)
    requires
        h@.len() == 512,
    ensures
        !blank ==> r == byte_sum(h@),
        blank ==> r == checked_sum(h@),
{
    let ghost target = if blank {
        h@.subrange(0, 148) + blank_checksum() + h@.subrange(156, 512)
    } else {
        h@
    };
    proof {
        assert(target.len() == 512);
        assert forall|k: int| 0 <= k < 512 implies #[trigger] target[k] == if blank && 148 <= k
            < 156 {
            32u8
        } else {
            h@[k]
        } by {}
    }
    let mut sum: u64 = 0;
    let mut i: usize = 0;
    while i < 512
        invariant
            i <= 512,
            h@.len() == 512,
            target.len() == 512,
            forall|k: int| 0 <= k < 512 ==> #[trigger] target[k] == if blank && 148 <= k < 156 {
                32u8
            } else {
                h@[k]
            },
            sum == byte_sum(target.subrange(0, i as int)),
            sum <= 255 * i,
        decreases 512 - i,
    {
        let b: u8 = if blank && 148 <= i && i < 156 {
            32
        } else {
            h[i]
        };
        proof {
            let next = target.subrange(0, i + 1);
            assert(next.drop_last() =~= target.subrange(0, i as int));
            assert(next.last() == b);
        }
        sum = sum + b as u64;
        i = i + 1;
    }
    proof {
        assert(target.subrange(0, 512) =~= target);
    }
    sum
}

/// What the file system reports of one node, as the collector hands it over.
#[derive(Debug, Clone)]
pub struct FileInfo {
    pub is_dir: bool,
    pub mode: u32,
    pub user_id: u64,
    pub group_id: u64,
    pub modified_time: i64,
    /// The owner's display name, empty when it could not be resolved.
    pub user_name: Vec<u8>,
    /// The group's display name, empty when it could not be resolved.
    pub group_name: Vec<u8>,
}

/// `path` with the prefix `root` and one separator after it taken off.
pub open spec fn relative_name(path: Seq<u8>, root: Seq<u8>) -> Seq<u8> {
    let rest = path.skip(root.len() as int);
    if rest.len() > 0 && rest[0] == 47 {
        rest.skip(1)
    } else {
        rest
    }
}

/// The archive name of the node at `path` under `root`: directories end in `/`.
pub open spec fn entry_name(path: Seq<u8>, root: Seq<u8>, is_dir: bool) -> Seq<u8> {
    if is_dir {
        relative_name(path, root).push(47)
    } else {
        relative_name(path, root)
    }
}

pub open spec fn is_prefix(root: Seq<u8>, path: Seq<u8>) -> bool {
    root.len() <= path.len() && path.subrange(0, root.len() as int) == root
}

/// Whether the size field of `e` is the length of its content.
pub open spec fn size_matches(e: EntryModel) -> bool {
    e.size == e.data.len()
}

/// The metadata of `h` with `data` as its content.
pub open spec fn with_data(h: EntryModel, data: Seq<u8>) -> EntryModel {
    EntryModel {
        name: h.name,
        mode: h.mode,
        user_id: h.user_id,
        group_id: h.group_id,
        size: h.size,
        modified_time: h.modified_time,
        type_flag: h.type_flag,
        link_name: h.link_name,
        user_name: h.user_name,
        group_name: h.group_name,
        data,
    }
}

/// The bytes that one entry takes in the stream: header, content, zero padding.
#[verifier::opaque]
pub open spec fn entry_bytes(e: EntryModel) -> Seq<u8> {
    header_bytes(e) + e.data + zeros(padding_len(e.data.len()))
}

/// Reading one entry at the front of `s`: the entry and the number of bytes it takes.
pub open spec fn read_entry_spec(s: Seq<u8>) -> Result<(EntryModel, nat), TarErrorKind> {
    if s.len() < 512 {
        Err(TarErrorKind::TruncatedArchive)
    } else {
        match decode_header_spec(s.subrange(0, 512)) {
            Err(k) => Err(k),
            Ok(h) => {
                let span = h.size + padding_len(h.size);
                if s.len() < 512 + span {
                    Err(TarErrorKind::TruncatedArchive)
                } else {
                    Ok((with_data(h, s.subrange(512, 512 + h.size as int)), (512 + span) as nat))
                }
            },
        }
    }
}

/// One archive entry: its metadata and, for a regular file, its content.
#[derive(Debug)]
pub struct TarRecord {
    name: Vec<u8>,
    mode: u32,
    user_id: u64,
    group_id: u64,
    size: u64,
    modified_time: i64,
    type_flag: TypeFlag,
    linkname: Vec<u8>,
    username: Vec<u8>,
    group_name: Vec<u8>,
    data: Vec<u8>,
}

impl View for TarRecord {
    type V = EntryModel;

    closed spec fn view(&self) -> EntryModel {
        EntryModel {
            name: self.name@,
            mode: self.mode as nat,
            user_id: self.user_id as nat,
            group_id: self.group_id as nat,
            size: self.size as nat,
            modified_time: self.modified_time as int,
            type_flag: self.type_flag,
            link_name: self.linkname@,
            user_name: self.username@,
            group_name: self.group_name@,
            data: self.data@,
        }
    }
}

pub proof fn lemma_split_from(name: Seq<u8>, i: int)
    ensures
        split_from(name, i) matches Some(j) ==> i <= j && is_split_at(name, j),
        i >= name.len() ==> split_from(name, i) is None,
    decreases 156 - i,
{
    if i <= 155 && !is_split_at(name, i) {
        lemma_split_from(name, i + 1);
    }
}

/// The two fields of a name that fits: their sizes, and how they make up the name.
pub proof fn lemma_name_parts(name: Seq<u8>)
    requires
        name_parts(name) is Some,
    ensures
        name_field(name).len() <= 100,
        prefix_field(name).len() <= 155,
        join_name(name_field(name), prefix_field(name)) == name,
        prefix_field(name).len() == 0 ==> name_field(name) == name,
        prefix_field(name).len() > 0 ==> name_field(name).len() > 0 && name_field(name)
            == name.skip(prefix_field(name).len() as int + 1) && prefix_field(name) == name.take(
            prefix_field(name).len() as int,
        ),
{
    if name.len() > 100 {
        lemma_split_from(name, 1);
        let i = split_from(name, 1)->0;
        assert(name.take(i).push(47) + name.skip(i + 1) =~= name);
    }
}

pub proof fn lemma_raw_header_len(e: EntryModel)
    requires
        encodable(e),
    ensures
        raw_header(e).len() == 512,
        header_bytes(e).len() == 512,
{
    lemma_name_parts(e.name);
    lemma_octal_digits_shape(e.mode, 6);
    lemma_octal_digits_shape(e.user_id, 6);
    lemma_octal_digits_shape(e.group_id, 6);
    lemma_octal_digits_shape(0, 6);
    lemma_octal_digits_shape(e.size, 11);
    lemma_octal_digits_shape(e.modified_time as nat, 11);
    lemma_octal_digits_shape(byte_sum(raw_header(e)), 6);
}

/// Whether `s` does not end in a NUL byte, so that trimming the padding of its field
/// gives it back.
pub open spec fn no_trailing_nul(s: Seq<u8>) -> bool {
    s.len() == 0 || s.last() != 0
}

pub proof fn lemma_trim_padded(s: Seq<u8>, width: nat)
    requires
        s.len() <= width,
        no_trailing_nul(s),
    ensures
        trim_nuls(padded(s, width)) == s,
    decreases width - s.len(),
{
    if width == s.len() {
        assert(padded(s, width) =~= s);
    } else {
        let p = padded(s, width);
        assert(p.drop_last() =~= padded(s, (width - 1) as nat));
        lemma_trim_padded(s, (width - 1) as nat);
    }
}

/// Where each field of an encoded header lies, and what it holds.
pub proof fn lemma_header_layout(e: EntryModel)
    requires
        encodable(e),
    ensures
        ({
            let raw = raw_header(e);
            let h = header_bytes(e);
            &&& h.len() == 512
            &&& h.subrange(0, 100) == padded(name_field(e.name), 100)
            &&& h.subrange(345, 500) == padded(prefix_field(e.name), 155)
            &&& h.subrange(100, 106) == octal_digits(e.mode, 6)
            &&& h[106] == 32
            &&& h.subrange(108, 114) == octal_digits(e.user_id, 6)
            &&& h.subrange(116, 122) == octal_digits(e.group_id, 6)
            &&& h.subrange(124, 135) == octal_digits(e.size, 11)
            &&& h.subrange(136, 147) == octal_digits(e.modified_time as nat, 11)
            &&& h.subrange(148, 154) == octal_digits(byte_sum(raw), 6)
            &&& h[156] == type_flag_byte(e.type_flag)
            &&& h.subrange(157, 257) == padded(e.link_name, 100)
            &&& h.subrange(257, 263) == magic()
            &&& h.subrange(265, 297) == padded(e.user_name, 32)
            &&& h.subrange(297, 329) == padded(e.group_name, 32)
            &&& h.subrange(0, 148) + blank_checksum() + h.subrange(156, 512) == raw
        }),
{
    lemma_raw_header_len(e);
    lemma_name_parts(e.name);
    lemma_octal_digits_shape(e.mode, 6);
    lemma_octal_digits_shape(e.user_id, 6);
    lemma_octal_digits_shape(e.group_id, 6);
    lemma_octal_digits_shape(0, 6);
    lemma_octal_digits_shape(e.size, 11);
    lemma_octal_digits_shape(e.modified_time as nat, 11);
    let raw = raw_header(e);
    lemma_octal_digits_shape(byte_sum(raw), 6);
    let h = header_bytes(e);
    let upto1 = padded(name_field(e.name), 100);
    let upto2 = upto1 + short_field(e.mode);
    let upto3 = upto2 + short_field(e.user_id);
    let upto4 = upto3 + short_field(e.group_id);
    let upto5 = upto4 + long_field(e.size);
    let upto6 = upto5 + long_field(e.modified_time as nat);
    let upto7 = upto6 + blank_checksum();
    let upto8 = upto7 + seq![type_flag_byte(e.type_flag)];
    let upto9 = upto8 + padded(e.link_name, 100);
    let upto10 = upto9 + magic();
    let upto11 = upto10 + version();
    let upto12 = upto11 + padded(e.user_name, 32);
    let upto13 = upto12 + padded(e.group_name, 32);
    let upto15 = upto13 + short_field(0) + short_field(0) + padded(prefix_field(e.name), 155);
    assert(raw.subrange(0, 500) =~= upto15);
    assert(upto15.subrange(0, 329) =~= upto13);
    assert(h.subrange(345, 500) =~= padded(prefix_field(e.name), 155));
    assert(upto13.subrange(0, 297) =~= upto12);
    assert(upto12.subrange(0, 265) =~= upto11);
    assert(upto11.subrange(0, 263) =~= upto10);
    assert(upto10.subrange(0, 257) =~= upto9);
    assert(upto9.subrange(0, 157) =~= upto8);
    assert(upto8.subrange(0, 156) =~= upto7);
    assert(upto7.subrange(0, 148) =~= upto6);
    assert(upto6.subrange(0, 136) =~= upto5);
    assert(upto5.subrange(0, 124) =~= upto4);
    assert(upto4.subrange(0, 116) =~= upto3);
    assert(upto3.subrange(0, 108) =~= upto2);
    assert(upto2.subrange(0, 100) =~= upto1);
    assert(h.subrange(0, 100) =~= upto1);
    assert(h.subrange(100, 106) =~= octal_digits(e.mode, 6));
    assert(h[106] == upto2[106]);
    assert(h.subrange(108, 114) =~= octal_digits(e.user_id, 6));
    assert(h.subrange(116, 122) =~= octal_digits(e.group_id, 6));
    assert(h.subrange(124, 135) =~= octal_digits(e.size, 11));
    assert(h.subrange(136, 147) =~= octal_digits(e.modified_time as nat, 11));
    assert(h.subrange(148, 154) =~= octal_digits(byte_sum(raw), 6));
    assert(h[156] == upto8[156]);
    assert(h.subrange(157, 257) =~= padded(e.link_name, 100));
    assert(h.subrange(257, 263) =~= magic());
    assert(h.subrange(265, 297) =~= padded(e.user_name, 32));
    assert(h.subrange(297, 329) =~= padded(e.group_name, 32));
    assert(raw.subrange(148, 156) =~= blank_checksum());
    assert(h.subrange(0, 148) + blank_checksum() + h.subrange(156, 512) =~= raw);
}

pub open spec fn no_nul(s: Seq<u8>) -> bool {
    forall|k: int| 0 <= k < s.len() ==> #[trigger] s[k] != 0
}

/// Whether every name of `e` comes back unchanged from its NUL-padded fields.
pub open spec fn names_survive_padding(e: EntryModel) -> bool {
    &&& no_nul(e.name)
    &&& no_trailing_nul(e.link_name)
    &&& no_trailing_nul(e.user_name)
    &&& no_trailing_nul(e.group_name)
}

/// The metadata of `e` without its content: what a header alone carries.
pub open spec fn header_model(e: EntryModel) -> EntryModel {
    EntryModel {
        name: e.name,
        mode: e.mode,
        user_id: e.user_id,
        group_id: e.group_id,
        size: e.size,
        modified_time: e.modified_time,
        type_flag: e.type_flag,
        link_name: e.link_name,
        user_name: e.user_name,
        group_name: e.group_name,
        data: Seq::empty(),
    }
}

/// A header produced by the encoder passes every check of the decoder, its checksum
/// included; its numeric fields and type flag decode to the encoded values.
pub proof fn lemma_encoded_header_decodes(e: EntryModel)
    requires
        encodable(e),
    ensures
        decode_header_spec(header_bytes(e)) matches Ok(d) && d.mode == e.mode && d.user_id
            == e.user_id && d.group_id == e.group_id && d.size == e.size && d.modified_time
            == e.modified_time && d.type_flag == e.type_flag && d.data == Seq::<u8>::empty(),
{
    let h = header_bytes(e);
    let raw = raw_header(e);
    lemma_header_layout(e);
    lemma_raw_header_len(e);
    lemma_byte_sum_bound(raw);
    reveal_with_fuel(pow8, 12);
    lemma_octal_digits_shape(e.mode, 6);
    lemma_octal_digits_shape(e.user_id, 6);
    lemma_octal_digits_shape(e.group_id, 6);
    lemma_octal_digits_shape(e.size, 11);
    lemma_octal_digits_shape(e.modified_time as nat, 11);
    lemma_octal_digits_shape(byte_sum(raw), 6);
    lemma_octal_round_trip(e.mode, 6);
    lemma_octal_round_trip(e.user_id, 6);
    lemma_octal_round_trip(e.group_id, 6);
    lemma_octal_round_trip(e.size, 11);
    lemma_octal_round_trip(e.modified_time as nat, 11);
    lemma_octal_round_trip(byte_sum(raw), 6);
    assert(!is_zero_block(h)) by {
        assert(h[106] == 32);
    }
    assert(checked_sum(h) == byte_sum(raw));
}

/// Decoding an encoded header gives back all of its metadata.
pub proof fn lemma_header_round_trip(e: EntryModel)
    requires
        encodable(e),
        names_survive_padding(e),
    ensures
        decode_header_spec(header_bytes(e)) == Ok::<EntryModel, TarErrorKind>(header_model(e)),
{
    lemma_encoded_header_decodes(e);
    lemma_header_layout(e);
    lemma_name_parts(e.name);
    let n = name_field(e.name);
    let p = prefix_field(e.name);
    assert(no_trailing_nul(n)) by {
        if n.len() > 0 {
            if p.len() == 0 {
                assert(n.last() == e.name[e.name.len() - 1]);
            } else {
                assert(n.last() == e.name[e.name.len() - 1]);
            }
        }
    }
    assert(no_trailing_nul(p)) by {
        if p.len() > 0 {
            assert(p.last() == e.name[p.len() - 1]);
        }
    }
    lemma_trim_padded(n, 100);
    lemma_trim_padded(p, 155);
    lemma_trim_padded(e.link_name, 100);
    lemma_trim_padded(e.user_name, 32);
    lemma_trim_padded(e.group_name, 32);
}

pub proof fn lemma_byte_sum_update(s: Seq<u8>, i: int, v: u8)
    requires
        0 <= i < s.len(),
    ensures
        byte_sum(s.update(i, v)) + s[i] == byte_sum(s) + v,
    decreases s.len(),
{
    let t = s.update(i, v);
    if i == s.len() - 1 {
        assert(t.drop_last() =~= s.drop_last());
    } else {
        assert(t.drop_last() =~= s.drop_last().update(i, v));
        lemma_byte_sum_update(s.drop_last(), i, v);
    }
}

/// Changing any one byte of an encoded header, outside the checksum and magic fields,
/// makes the decoder report a checksum mismatch.
pub proof fn lemma_corruption_detected(e: EntryModel, i: int, v: u8)
    requires
        encodable(e),
        0 <= i < 512,
        !(148 <= i < 156),
        !(257 <= i < 263),
        v != header_bytes(e)[i],
    ensures
        decode_header_spec(header_bytes(e).update(i, v)) == Err::<EntryModel, TarErrorKind>(
            TarErrorKind::InvalidChecksum,
        ),
{
    lemma_encoded_header_decodes(e);
    lemma_raw_header_len(e);
    lemma_update_breaks_checksum(header_bytes(e), i, v);
}

proof fn lemma_update_breaks_checksum(h: Seq<u8>, i: int, v: u8)
    requires
        h.len() == 512,
        decode_header_spec(h) is Ok,
        0 <= i < 512,
        !(148 <= i < 156),
        !(257 <= i < 263),
        v != h[i],
    ensures
        decode_header_spec(h.update(i, v)) == Err::<EntryModel, TarErrorKind>(
            TarErrorKind::InvalidChecksum,
        ),
{
    let c = h.update(i, v);
    assert(h.subrange(257, 263)[0] == magic()[0]);
    assert(c[257] == 117);
    assert(!is_zero_block(c));
    assert(c.subrange(257, 263) =~= h.subrange(257, 263));
    assert(c.subrange(148, 154) =~= h.subrange(148, 154));
    lemma_checked_sum_update(h, i, v);
}

proof fn lemma_checked_sum_update(h: Seq<u8>, i: int, v: u8)
    requires
        h.len() == 512,
        0 <= i < 512,
        !(148 <= i < 156),
    ensures
        checked_sum(h.update(i, v)) + h[i] == checked_sum(h) + v,
{
    let c = h.update(i, v);
    let b = h.subrange(0, 148) + blank_checksum() + h.subrange(156, 512);
    assert(c.subrange(0, 148) + blank_checksum() + c.subrange(156, 512) =~= b.update(i, v));
    lemma_byte_sum_update(b, i, v);
}

/// Replacing the magic field of an encoded header with any other six bytes makes the
/// decoder report an invalid magic value, not a checksum mismatch.
pub proof fn lemma_bad_magic_detected(e: EntryModel, m: Seq<u8>)
    requires
        encodable(e),
        m.len() == 6,
        m != magic(),
    ensures
        decode_header_spec(header_bytes(e).subrange(0, 257) + m + header_bytes(e).subrange(263, 512))
            == Err::<EntryModel, TarErrorKind>(TarErrorKind::InvalidMagicValue),
{
    let h = header_bytes(e);
    let c = h.subrange(0, 257) + m + h.subrange(263, 512);
    lemma_header_layout(e);
    assert(c[106] == 32);
    assert(!is_zero_block(c));
    assert(c.subrange(257, 263) =~= m);
}

/// Appends the magic value and the version field.
fn push_magic_version(out: &mut Vec<u8>)
    ensures
        final(out)@ == old(out)@ + magic() + version(),
{
    out.push(117);
    out.push(115);
    out.push(116);
    out.push(97);
    out.push(114);
    out.push(0);
    out.push(48);
    out.push(48);
    proof {
        assert(final(out)@ =~= old(out)@ + magic() + version());
    }
}

fn type_flag_to_byte(t: TypeFlag) -> (r: u8)
    ensures
        r == type_flag_byte(t),
{
    match t {
        TypeFlag::ARegFile => 48,
        TypeFlag::Link => 49,
        TypeFlag::Directory => 53,
    }
}

fn type_flag_from_byte(b: u8) -> (r: Option<TypeFlag>)
    ensures
        r == decode_type_flag(b),
{
    if b == 48 {
        Some(TypeFlag::ARegFile)
    } else if b == 49 {
        Some(TypeFlag::Link)
    } else if b == 53 {
        Some(TypeFlag::Directory)
    } else {
        None
    }
}

/// The bytes `block[start .. start + width]` without their trailing NULs.
fn trimmed_field(block: &[u8], start: usize, width: usize) -> (r: Vec<u8>)
    requires
        start + width <= block@.len(),
    ensures
        r@ == trim_nuls(block@.subrange(start as int, start + width)),
{
    let mut end: usize = start + width;
    while end > start && block[end - 1] == 0
        invariant
            start <= end <= start + width,
            start + width <= block@.len(),
            trim_nuls(block@.subrange(start as int, start + width)) == trim_nuls(
                block@.subrange(start as int, end as int),
            ),
        decreases end - start,
    {
        proof {
            assert(block@.subrange(start as int, end as int).drop_last() =~= block@.subrange(
                start as int,
                end - 1,
            ));
        }
        end = end - 1;
    }
    vstd::slice::slice_to_vec(&block[start..end])
}

/// Where to cut a name that does not fit the name field alone.
fn find_split(name: &[u8]) -> (r: Option<usize>)
    ensures
        match split_from(name@, 1) {
            Some(i) => r == Some(i as usize),
            None => r is None,
        },
{
    let len = name.len();
    let mut i: usize = 1;
    while i <= 155 && i < len
        invariant
            1 <= i <= 156,
            len == name@.len(),
            split_from(name@, 1) == split_from(name@, i as int),
        decreases 156 - i,
    {
        if name[i] == 47 && len - i - 1 <= 100 && len - i - 1 > 0 {
            return Some(i);
        }
        i = i + 1;
    }
    proof {
        lemma_split_from(name@, i as int);
    }
    None
}

/// Whether `block` holds the magic value at its place.
fn has_magic(block: &[u8]) -> (r: bool)
    requires
        block@.len() == 512,
    ensures
        r == (block@.subrange(257, 263) == magic()),
{
    let r = block[257] == 117 && block[258] == 115 && block[259] == 116 && block[260] == 97
        && block[261] == 114 && block[262] == 0;
    proof {
        let m = block@.subrange(257, 263);
        if r {
            assert(m =~= magic());
        } else if m == magic() {
            assert(m[0] == magic()[0] && m[1] == magic()[1] && m[2] == magic()[2]);
            assert(m[3] == magic()[3] && m[4] == magic()[4] && m[5] == magic()[5]);
        }
    }
    r
}

impl TarRecord {
    /// Builds the entry for the node at `path`, named relative to `root`, from its
    /// metadata and, for a regular file, its content.
    pub fn new(path: &[u8], root: &[u8], info: FileInfo, data: Vec<u8>) -> (r: TarRecord)
        requires
            is_prefix(root@, path@),
        ensures
            r@ == (EntryModel {
                name: entry_name(path@, root@, info.is_dir),
                mode: (info.mode & 0o7777) as nat,
                user_id: info.user_id as nat,
                group_id: info.group_id as nat,
                size: if info.is_dir {
                    0
                } else {
                    data@.len()
                },
                modified_time: info.modified_time as int,
                type_flag: if info.is_dir {
                    TypeFlag::Directory
                } else {
                    TypeFlag::ARegFile
                },
                link_name: Seq::empty(),
                user_name: info.user_name@,
                group_name: info.group_name@,
                data: if info.is_dir {
                    Seq::empty()
                } else {
                    data@
                },
            }),
            size_matches(r@),
    {
        let mut start = root.len();
        if start < path.len() && path[start] == 47 {
            start = start + 1;
        }
        let ghost rest = path@.skip(root@.len() as int);
        proof {
            if rest.len() > 0 && rest[0] == 47 {
                assert(rest.skip(1) =~= path@.subrange(start as int, path@.len() as int));
            } else {
                assert(rest =~= path@.subrange(start as int, path@.len() as int));
            }
        }
        let mut name = vstd::slice::slice_to_vec(&path[start..path.len()]);
        let (type_flag, size, content) = if info.is_dir {
            name.push(47);
            (TypeFlag::Directory, 0u64, Vec::new())
        } else {
            (TypeFlag::ARegFile, data.len() as u64, data)
        };
        TarRecord {
            name,
            mode: info.mode & 0o7777,
            user_id: info.user_id,
            group_id: info.group_id,
            size,
            modified_time: info.modified_time,
            type_flag,
            linkname: Vec::new(),
            username: info.user_name,
            group_name: info.group_name,
            data: content,
        }
    }

    /// Appends the whole entry to `out`: its header, its content and the zero padding
    /// up to the next block boundary.
    pub fn write_record(&self, out: &mut Vec<u8>) -> (r: Result<(), TarError>)
        requires
            size_matches(self@),
        ensures
            r is Ok <==> encodable(self@),
            r is Ok ==> final(out)@ == old(out)@ + entry_bytes(self@),
            r matches Err(e) ==> e.kind == TarErrorKind::EncodingOverflow && final(out)@ == old(
                out,
            )@,
    {
        self.write_header(out)?;
        self.write_file(out);
        proof {
            reveal(entry_bytes);
        }
        Ok(())
    }

    /// Appends the content and its padding.
    fn write_file(&self, out: &mut Vec<u8>)
        requires
            size_matches(self@),
        ensures
            final(out)@ == old(out)@ + self@.data + zeros(padding_len(self@.data.len())),
    {
        let ghost start = out@;
        let mut i: usize = 0;
        while i < self.data.len()
            invariant
                i <= self.data@.len(),
                out@ == start + self.data@.subrange(0, i as int),
            decreases self.data@.len() - i,
        {
            out.push(self.data[i]);
            i = i + 1;
            proof {
                assert(out@ =~= start + self.data@.subrange(0, i as int));
            }
        }
        proof {
            assert(self.data@.subrange(0, i as int) =~= self.data@);
        }
        let residual = padding_for(self.size);
        let ghost before = out@;
        let mut k: u64 = 0;
        while k < residual
            invariant
                k <= residual,
                out@ == before + zeros(k as nat),
            decreases residual - k,
        {
            out.push(0);
            k = k + 1;
            proof {
                assert(out@ =~= before + zeros(k as nat));
            }
        }
    }

    /// Reads the entry that starts at `pos` in `archive`: its header, then its content.
    /// Returns the record and the position just past its padding.
    pub fn new_from_file(archive: &[u8], pos: usize) -> (r: Result<(TarRecord, usize), TarError>)
        requires
            pos <= archive@.len(),
        ensures
            match read_entry_spec(archive@.skip(pos as int)) {
                Ok((e, n)) => r matches Ok((rec, next)) && rec@ == e && next == pos + n
                    && size_matches(rec@),
                Err(k) => r matches Err(err) && err.kind == k,
            },
    {
        let ghost s = archive@.skip(pos as int);
        let remaining = archive.len() - pos;
        if remaining < 512 {
            return Err(TarError::new(TarErrorKind::TruncatedArchive, "archive ends inside a header"));
        }
        proof {
            assert(archive@.subrange(pos as int, pos + 512) =~= s.subrange(0, 512));
        }
        let mut record = TarRecord::read_header(&archive[pos..pos + 512])?;
        proof {
            reveal_with_fuel(pow8, 12);
            lemma_octal_value_bound(s.subrange(0, 512).subrange(124, 135));
        }
        let size = record.size;
        let span = size + padding_for(size);
        if ((remaining - 512) as u64) < span {
            return Err(TarError::new(TarErrorKind::TruncatedArchive, "archive ends inside a payload"));
        }
        let start = pos + 512;
        let end = start + size as usize;
        proof {
            assert(archive@.subrange(start as int, end as int) =~= s.subrange(512, 512 + size));
        }
        record.data = vstd::slice::slice_to_vec(&archive[start..end]);
        Ok((record, start + span as usize))
    }

    /// The entry's name, relative to the archived root; directories end in `/`.
    pub fn name(&self) -> (r: &[u8])
        ensures
            r@ == self@.name,
    {
        self.name.as_slice()
    }

    /// The permission bits.
    pub fn mode(&self) -> (r: u32)
        ensures
            r == self@.mode,
    {
        self.mode
    }

    pub fn user_id(&self) -> (r: u64)
        ensures
            r == self@.user_id,
    {
        self.user_id
    }

    pub fn group_id(&self) -> (r: u64)
        ensures
            r == self@.group_id,
    {
        self.group_id
    }

    /// The length of the content, as the header states it.
    pub fn size(&self) -> (r: u64)
        ensures
            r == self@.size,
    {
        self.size
    }

    /// Modification time in seconds since the Unix epoch.
    pub fn modified_time(&self) -> (r: i64)
        ensures
            r == self@.modified_time,
    {
        self.modified_time
    }

    pub fn type_flag(&self) -> (r: TypeFlag)
        ensures
            r == self@.type_flag,
    {
        self.type_flag
    }

    pub fn link_name(&self) -> (r: &[u8])
        ensures
            r@ == self@.link_name,
    {
        self.linkname.as_slice()
    }

    pub fn user_name(&self) -> (r: &[u8])
        ensures
            r@ == self@.user_name,
    {
        self.username.as_slice()
    }

    pub fn group_name(&self) -> (r: &[u8])
        ensures
            r@ == self@.group_name,
    {
        self.group_name.as_slice()
    }

    /// The content of a regular file; empty for a directory.
    pub fn data(&self) -> (r: &[u8])
        ensures
            r@ == self@.data,
    {
        self.data.as_slice()
    }

    /// Encodes the header block of this record and appends it to `out`.
    /// Fails, leaving `out` as it was, when a value does not fit in its field.
    pub fn write_header(&self, out: &mut Vec<u8>) -> (r: Result<(), TarError>)
        ensures
            r is Ok <==> encodable(self@),
            r is Ok ==> final(out)@ == old(out)@ + header_bytes(self@),
            r matches Err(e) ==> e.kind == TarErrorKind::EncodingOverflow && final(out)@ == old(
                out,
            )@,
    {
        proof {
            reveal_with_fuel(pow8, 12);
        }
        let name_len = self.name.len();
        proof {
            lemma_split_from(self.name@, 1);
        }
        let (suffix_start, prefix_len): (usize, usize) = if name_len <= 100 {
            (0, 0)
        } else {
            match find_split(self.name.as_slice()) {
                Some(i) => (i + 1, i),
                None => {
                    return Err(TarError::new(TarErrorKind::EncodingOverflow, "name too long for the name and prefix fields"));
                },
            }
        };
        proof {
            lemma_split_from(self.name@, 1);
            if name_len <= 100 {
                assert(self.name@.subrange(0, name_len as int) =~= name_field(self.name@));
                assert(self.name@.subrange(0, 0) =~= prefix_field(self.name@));
            } else {
                assert(self.name@.subrange(suffix_start as int, name_len as int) =~= name_field(
                    self.name@,
                ));
                assert(self.name@.subrange(0, prefix_len as int) =~= prefix_field(self.name@));
            }
        }
        if !(self.linkname.len() <= 100 && self.username.len() <= 32
            && self.group_name.len() <= 32 && self.mode < 262144 && self.user_id < 262144
            && self.group_id < 262144 && self.size < 8589934592 && self.modified_time >= 0
            && self.modified_time < 8589934592) {
            return Err(TarError::new(TarErrorKind::EncodingOverflow, "value too large for its header field"));
        }
        let ghost e = self@;
        let mut h: Vec<u8> = Vec::with_capacity(512);
        push_padded(&mut h, &self.name[suffix_start..name_len], 100);
        proof {
            assert(h@ =~= padded(name_field(e.name), 100));
        }
        push_short_field(&mut h, self.mode as u64);
        push_short_field(&mut h, self.user_id);
        push_short_field(&mut h, self.group_id);
        push_long_field(&mut h, self.size);
        push_long_field(&mut h, self.modified_time as u64);
        let ghost before_blank = h@;
        let mut k: usize = 0;
        while k < 8
            invariant
                k <= 8,
                h@ == before_blank + Seq::new(k as nat, |_i: int| 32u8),
            decreases 8 - k,
        {
            h.push(32);
            k = k + 1;
            proof {
                assert(h@ =~= before_blank + Seq::new(k as nat, |_i: int| 32u8));
            }
        }
        let ghost before_flag = h@;
        h.push(type_flag_to_byte(self.type_flag));
        proof {
            assert(h@ =~= before_flag + seq![type_flag_byte(e.type_flag)]);
        }
        push_padded(&mut h, self.linkname.as_slice(), 100);
        push_magic_version(&mut h);
        push_padded(&mut h, self.username.as_slice(), 32);
        push_padded(&mut h, self.group_name.as_slice(), 32);
        push_short_field(&mut h, 0);
        push_short_field(&mut h, 0);
        push_padded(&mut h, &self.name[0..prefix_len], 155);
        let ghost before_fill = h@;
        let mut k: usize = 0;
        while k < 12
            invariant
                k <= 12,
                h@ == before_fill + zeros(k as nat),
            decreases 12 - k,
        {
            h.push(0);
            k = k + 1;
            proof {
                assert(h@ =~= before_fill + zeros(k as nat));
            }
        }
        let ghost raw = raw_header(e);
        proof {
            assert(h@ == raw);
            lemma_raw_header_len(e);
            lemma_byte_sum_bound(raw);
        }
        let sum = sum_bytes(h.as_slice(), false);
        let mut c: Vec<u8> = Vec::new();
        push_octal(sum, 6, &mut c);
        c.push(0);
        c.push(32);
        proof {
            assert(c@ =~= checksum_field(sum as nat));
            lemma_octal_digits_shape(sum as nat, 6);
        }
        let mut j: usize = 0;
        while j < 8
            invariant
                j <= 8,
                raw.len() == 512,
                c@.len() == 8,
                h@ == raw.subrange(0, 148) + c@.subrange(0, j as int) + raw.subrange(
                    148 + j,
                    512,
                ),
            decreases 8 - j,
        {
            h[148 + j] = c[j];
            j = j + 1;
            proof {
                assert(h@ =~= raw.subrange(0, 148) + c@.subrange(0, j as int) + raw.subrange(
                    148 + j,
                    512,
                ));
            }
        }
        proof {
            assert(h@ =~= header_bytes(e));
        }
        out.append(&mut h);
        Ok(())
    }

    /// Decodes a 512-byte header block into a record without content.
    pub fn read_header(block: &[u8]) -> (r: Result<TarRecord, TarError>)
        requires
            block@.len() == 512,
        ensures
            match decode_header_spec(block@) {
                Ok(e) => r matches Ok(rec) && rec@ == e,
                Err(k) => r matches Err(err) && err.kind == k,
            },
    {
        proof {
            reveal_with_fuel(pow8, 12);
        }
        let mut i: usize = 0;
        while i < 512 && block[i] == 0
            invariant
                i <= 512,
                block@.len() == 512,
                forall|k: int| 0 <= k < i ==> block@[k] == 0,
            decreases 512 - i,
        {
            i = i + 1;
        }
        if i == 512 {
            return Err(TarError::new(TarErrorKind::EmptyHeaderBlock, "empty header block"));
        }
        proof {
            assert(block@[i as int] != 0);
            assert(!is_zero_block(block@));
        }
        if !has_magic(block) {
            return Err(TarError::new(TarErrorKind::InvalidMagicValue, "header corrupted, invalid magic value"));
        }
        let stored = parse_octal(block, 148, 6);
        let sum = sum_bytes(block, true);
        let matches_sum = match stored {
            Some(c) => c == sum,
            None => false,
        };
        if !matches_sum {
            return Err(TarError::new(TarErrorKind::InvalidChecksum, "checksum is invalid, the archive may be corrupted"));
        }
        let mode = parse_octal(block, 100, 6);
        let user_id = parse_octal(block, 108, 6);
        let group_id = parse_octal(block, 116, 6);
        let size = parse_octal(block, 124, 11);
        let modified_time = parse_octal(block, 136, 11);
        if mode.is_none() || user_id.is_none() || group_id.is_none() || size.is_none()
            || modified_time.is_none() {
            return Err(TarError::new(TarErrorKind::InvalidNumericField, "numeric header field is not octal"));
        }
        let type_flag = match type_flag_from_byte(block[156]) {
            Some(t) => t,
            None => {
                return Err(TarError::new(TarErrorKind::InvalidTypeFlag, "unknown entry type"));
            },
        };
        let mode = mode.unwrap();
        let modified_time = modified_time.unwrap();
        let mut name = trimmed_field(block, 345, 155);
        let mut suffix = trimmed_field(block, 0, 100);
        if name.len() == 0 {
            name = suffix;
        } else {
            name.push(47);
            name.append(&mut suffix);
        }
        Ok(
            TarRecord {
                name,
                mode: mode as u32,
                user_id: user_id.unwrap(),
                group_id: group_id.unwrap(),
                size: size.unwrap(),
                modified_time: modified_time as i64,
                type_flag,
                linkname: trimmed_field(block, 157, 100),
                username: trimmed_field(block, 265, 32),
                group_name: trimmed_field(block, 297, 32),
                data: Vec::new(),
            },
        )
    }
}

} // verus!
