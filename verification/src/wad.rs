//! WAD archives: a header, a directory of named lumps, and the lump data.

use crate::bytes::{le_u32, read_u32_le};
use vstd::prelude::*;
use vstd::string::StringSliceAdditionalSpecFns;
use vstd::utf8::*;

verus! {

broadcast use vstd::seq_lib::group_seq_properties;

/// Why a WAD archive could not be read.
#[derive(Debug, Clone, Copy, PartialEq, Eq, Structural)]
pub enum WadError {
    /// A header, directory entry or lump lies (partly) past the end of the data.
    UnexpectedEof,
    /// The magic tag or a lump name is not valid UTF-8.
    InvalidUtf8,
    /// The magic tag is neither `IWAD` nor `PWAD`.
    InvalidMagic,
}

/// One named lump of a WAD archive.
pub struct Lump {
    pub name: String,
    pub data: Vec<u8>,
    pub pos: u64,
    pub len: usize,
}

/// A WAD archive: its lumps, in directory order.
pub struct Wad {
    pub lumps: Vec<Lump>,
}

/// The bytes of the tag `IWAD`.
pub open spec fn iwad_magic() -> Seq<u8> {
    seq![0x49u8, 0x57u8, 0x41u8, 0x44u8]
}

/// The bytes of the tag `PWAD`.
pub open spec fn pwad_magic() -> Seq<u8> {
    seq![0x50u8, 0x57u8, 0x41u8, 0x44u8]
}

/// Number of lumps that the header announces.
pub open spec fn lump_count(d: Seq<u8>) -> int {
    le_u32(d, 4)
}

/// Offset of the directory that the header announces.
pub open spec fn directory_offset(d: Seq<u8>) -> int {
    le_u32(d, 8)
}

/// Offset of the `i`-th directory entry (each entry is 16 bytes long).
pub open spec fn entry_offset(d: Seq<u8>, i: int) -> int {
    directory_offset(d) + 16 * i
}

/// The `i`-th directory entry lies wholly inside the data.
pub open spec fn entry_complete(d: Seq<u8>, i: int) -> bool {
    entry_offset(d, i) + 16 <= d.len()
}

/// File position of the `i`-th lump.
pub open spec fn entry_pos(d: Seq<u8>, i: int) -> int {
    le_u32(d, entry_offset(d, i))
}

/// Length of the `i`-th lump.
pub open spec fn entry_len(d: Seq<u8>, i: int) -> int {
    le_u32(d, entry_offset(d, i) + 4)
}

/// The raw 8-byte name field of the `i`-th directory entry.
pub open spec fn entry_name(d: Seq<u8>, i: int) -> Seq<u8> {
    d.subrange(entry_offset(d, i) + 8, entry_offset(d, i) + 16)
}

/// Length of `raw` once its trailing zero bytes are removed.
pub open spec fn trimmed_len(raw: Seq<u8>) -> nat
    decreases raw.len(),
{
    if raw.len() > 0 && raw.last() == 0 {
        trimmed_len(raw.drop_last())
    } else {
        raw.len()
    }
}

/// The name that a raw name field stands for: its UTF-8 text without trailing NULs.
pub open spec fn lump_name(raw: Seq<u8>) -> Seq<char> {
    decode_utf8(raw.subrange(0, trimmed_len(raw) as int))
}

/// Why `d` is not a readable WAD archive, or `None` when it is.
///
/// The checks come in the order in which the data is read: the tag, the
/// header, each directory entry in turn, then the lumps.
pub open spec fn wad_error(d: Seq<u8>) -> Option<WadError> {
    if d.len() < 4 {
        Some(WadError::UnexpectedEof)
    } else if !valid_utf8(d.subrange(0, 4)) {
        Some(WadError::InvalidUtf8)
    } else if d.subrange(0, 4) != iwad_magic() && d.subrange(0, 4) != pwad_magic() {
        Some(WadError::InvalidMagic)
    } else if d.len() < 12 {
        Some(WadError::UnexpectedEof)
    } else if exists|i: int|
        0 <= i < lump_count(d) && entry_complete(d, i) && !valid_utf8(#[trigger] entry_name(d, i)) {
        Some(WadError::InvalidUtf8)
    } else if exists|i: int| 0 <= i < lump_count(d) && !#[trigger] entry_complete(d, i) {
        Some(WadError::UnexpectedEof)
    } else if exists|i: int|
        0 <= i < lump_count(d) && #[trigger] lump_out_of_range(d, i) {
        Some(WadError::UnexpectedEof)
    } else {
        None
    }
}

/// The `i`-th lump has bytes, and some of them lie past the end of `d`. (An
/// empty lump reads nothing, wherever its position lies.)
pub open spec fn lump_out_of_range(d: Seq<u8>, i: int) -> bool {
    entry_len(d, i) > 0 && entry_pos(d, i) + entry_len(d, i) > d.len()
}

/// The bytes of the `i`-th lump: none for an empty lump, else the bytes of
/// `d` from its position on.
pub open spec fn lump_bytes(d: Seq<u8>, i: int) -> Seq<u8> {
    if entry_len(d, i) == 0 {
        Seq::empty()
    } else {
        d.subrange(entry_pos(d, i), entry_pos(d, i) + entry_len(d, i))
    }
}

/// `l` is the lump that the `i`-th directory entry of `d` describes.
pub open spec fn lump_read_from(l: Lump, d: Seq<u8>, i: int) -> bool {
    &&& l.name@ == lump_name(entry_name(d, i))
    &&& l.pos == entry_pos(d, i)
    &&& l.len == entry_len(d, i)
    &&& l.data@ == lump_bytes(d, i)
}

/// `std::str::from_utf8`, as an `Option`.
///
/// Trusted: the standard library returns `Ok` exactly when `bytes` is valid
/// UTF-8, and the `str` it returns then consists of exactly these bytes.
#[verifier::external_body]
fn str_from_utf8(bytes: &[u8]) -> (r: Option<&str>)
    ensures
        r is Some <==> valid_utf8(bytes@),
        r matches Some(s) ==> s.spec_bytes() == bytes@,
{
    std::str::from_utf8(bytes).ok()
}

/// Decodes a raw lump name field: `None` when it is not UTF-8, else its text
/// with the trailing NUL characters removed.
pub fn decode_lump_name(raw: &[u8]) -> (r: Option<String>)
    ensures
        r is Some <==> valid_utf8(raw@),
        r matches Some(s) ==> s@ == lump_name(raw@),
{
    let s = match str_from_utf8(raw) {
        None => return None,
        Some(s) => s,
    };
    let mut end = raw.len();
    assert(raw@.subrange(0, end as int) =~= raw@);
    while end > 0 && raw[end - 1] == 0
        invariant
            end <= raw@.len(),
            trimmed_len(raw@) == trimmed_len(raw@.subrange(0, end as int)),
            forall|k: int| end <= k < raw@.len() ==> raw@[k] == 0,
        decreases end,
    {
        assert(raw@.subrange(0, end as int).drop_last() =~= raw@.subrange(0, end - 1));
        end = end - 1;
    }
    assert(trimmed_len(raw@) == end);
    proof {
        if end < raw@.len() {
            is_char_boundary_iff_not_is_continuation_byte(raw@, end as int);
        } else {
            is_char_boundary_start_end_of_seq(raw@);
        }
    }
    let (head, _) = s.split_at(end);
    let name = head.to_owned();
    proof {
        encode_utf8_decode_utf8(head@);
    }
    Some(name)
}

impl Wad {
    /// Reads a WAD archive from the whole contents `data` of a WAD file.
    ///
    /// The 12-byte header holds the tag (`IWAD` or `PWAD`), the number of
    /// lumps and the offset of the directory; each 16-byte directory entry
    /// holds a lump's position, length and 8-byte NUL-padded name.
    pub fn from_reader(data: &[u8]) -> (r: Result<Wad, WadError>)
        ensures
            match r {
                Ok(wad) => {
                    &&& wad_error(data@) is None
                    &&& wad.lumps@.len() == lump_count(data@)
                    &&& forall|i: int|
                        0 <= i < wad.lumps@.len() ==> lump_read_from(
                            #[trigger] wad.lumps@[i],
                            data@,
                            i,
                        )
                },
                Err(e) => wad_error(data@) == Some(e),
            },
    {
        let ghost d = data@;
        if data.len() < 4 {
            return Err(WadError::UnexpectedEof);
        }
        if str_from_utf8(&data[0..4]).is_none() {
            return Err(WadError::InvalidUtf8);
        }
        let is_wad = (data[0] == 0x49 || data[0] == 0x50) && data[1] == 0x57 && data[2] == 0x41
            && data[3] == 0x44;
        proof {
            let tag = d.subrange(0, 4);
            if is_wad {
                assert(tag =~= iwad_magic() || tag =~= pwad_magic());
            } else {
                assert(tag != iwad_magic() && tag != pwad_magic()) by {
                    if tag == iwad_magic() {
                        assert(tag[0] == d[0]);
                    }
                    if tag == pwad_magic() {
                        assert(tag[0] == d[0]);
                    }
                    assert(tag[1] == d[1] && tag[2] == d[2] && tag[3] == d[3]);
                }
            }
        }
        if !is_wad {
            return Err(WadError::InvalidMagic);
        }
        if data.len() < 12 {
            return Err(WadError::UnexpectedEof);
        }
        let num_lumps = read_u32_le(data, 4);
        let offset = read_u32_le(data, 8);
        let len: usize = data.len();

        // The directory: every entry must be present, with a UTF-8 name.
        let mut dir: Vec<Lump> = Vec::new();
        let mut i: u32 = 0;
        while i < num_lumps
            invariant
                d == data@,
                wad_error(d) == wad_error_after_header(d),
                num_lumps == lump_count(d),
                offset == directory_offset(d),
                len == d.len(),
                i <= num_lumps,
                dir@.len() == i,
                forall|j: int|
                    0 <= j < i ==> entry_complete(d, j) && valid_utf8(#[trigger] entry_name(d, j)),
                forall|j: int| 0 <= j < i ==> directory_entry_read(#[trigger] dir@[j], d, j),
            decreases num_lumps - i,
        {
            let e: u64 = offset as u64 + 16 * (i as u64);
            if e + 16 > len as u64 {
                proof {
                    assert forall|j: int| i <= j < lump_count(d) implies !entry_complete(d, j) by {}
                    assert(!entry_complete(d, i as int));
                }
                return Err(WadError::UnexpectedEof);
            }
            let eu = e as usize;
            let pos = read_u32_le(data, eu);
            let size = read_u32_le(data, eu + 4);
            let name = match decode_lump_name(&data[eu + 8..eu + 16]) {
                None => {
                    assert(entry_complete(d, i as int) && !valid_utf8(entry_name(d, i as int)));
                    return Err(WadError::InvalidUtf8);
                },
                Some(name) => name,
            };
            dir.push(Lump { name, data: Vec::new(), pos: pos as u64, len: size as usize });
            i = i + 1;
        }
        // Every entry was read: all are complete, with UTF-8 names.
        assert forall|j: int|
            #![trigger entry_complete(d, j)]
            #![trigger entry_name(d, j)]
            0 <= j < lump_count(d) implies entry_complete(d, j) && valid_utf8(entry_name(d, j)) by {
            assert(valid_utf8(entry_name(d, j)));
        }

        // The lumps: each must lie inside the data.
        let mut lumps: Vec<Lump> = Vec::new();
        let mut k: usize = 0;
        while k < dir.len()
            invariant
                d == data@,
                wad_error(d) == wad_error_after_directory(d),
                dir@.len() == lump_count(d),
                len == d.len(),
                k <= dir@.len(),
                lumps@.len() == k,
                forall|j: int| 0 <= j < dir@.len() ==> directory_entry_read(#[trigger] dir@[j], d, j),
                forall|j: int| 0 <= j < k ==> !#[trigger] lump_out_of_range(d, j),
                forall|j: int| 0 <= j < k ==> lump_read_from(#[trigger] lumps@[j], d, j),
            decreases dir@.len() - k,
        {
            let pos = dir[k].pos;
            let size = dir[k].len;
            if size > 0 && pos + size as u64 > len as u64 {
                assert(lump_out_of_range(d, k as int));
                return Err(WadError::UnexpectedEof);
            }
            // An empty lump reads nothing, even from past the end of the data.
            let contents = if size == 0 {
                Vec::new()
            } else {
                let start = pos as usize;
                copy_bytes(data, start, start + size)
            };
            lumps.push(Lump { name: dir[k].name.clone(), data: contents, pos, len: size });
            k = k + 1;
        }
        Ok(Wad { lumps })
    }
}

impl Wad {
    /// The name of the `i`-th lump.
    pub open spec fn name_of(&self, i: int) -> Seq<char> {
        self.lumps@[i].name@
    }

    /// Lump `i` is called `name`, and no earlier lump is.
    pub open spec fn is_first_named(&self, i: int, name: Seq<char>) -> bool {
        &&& 0 <= i < self.lumps@.len()
        &&& self.name_of(i) == name
        &&& forall|j: int| 0 <= j < i ==> self.name_of(j) != name
    }

    /// Index of the first lump called `name`, or `None` when no lump is.
    pub open spec fn first_named(&self, name: Seq<char>) -> Option<int> {
        if exists|i: int| self.is_first_named(i, name) {
            Some(choose|i: int| self.is_first_named(i, name))
        } else {
            None
        }
    }

    /// Index of the first lump called `name`, if there is one.
    pub fn get_num_for_name(&self, name: &str) -> (r: Option<usize>)
        ensures
            match r {
                Some(i) => self.is_first_named(i as int, name@) && self.first_named(name@) == Some(
                    i as int,
                ),
                None => self.first_named(name@) is None && forall|j: int|
                    0 <= j < self.lumps@.len() ==> self.name_of(j) != name@,
            },
    {
        let mut i: usize = 0;
        while i < self.lumps.len()
            invariant
                i <= self.lumps@.len(),
                forall|j: int| 0 <= j < i ==> self.name_of(j) != name@,
            decreases self.lumps@.len() - i,
        {
            if same_text(self.lumps[i].name.as_str(), name) {
                proof {
                    assert(self.is_first_named(i as int, name@));
                    let k = choose|k: int| self.is_first_named(k, name@);
                    if k < i {
                        assert(self.name_of(k) != name@);
                    }
                    if i < k {
                        assert(self.name_of(i as int) != name@);
                    }
                }
                return Some(i);
            }
            i = i + 1;
        }
        proof {
            if exists|k: int| self.is_first_named(k, name@) {
                let k = choose|k: int| self.is_first_named(k, name@);
                assert(self.name_of(k) != name@);
            }
        }
        None
    }

    /// The data of the lump with index `num`, if there is one.
    pub fn cache_lump_num(&self, num: usize) -> (r: Option<&[u8]>)
        ensures
            match r {
                Some(d) => num < self.lumps@.len() && d@ == self.lumps@[num as int].data@,
                None => num >= self.lumps@.len(),
            },
    {
        if num < self.lumps.len() {
            return Some(self.lumps[num].data.as_slice());
        }
        None
    }

    /// Lump `i` is called `name`, and no later lump is.
    pub open spec fn is_last_named(&self, i: int, name: Seq<char>) -> bool {
        &&& 0 <= i < self.lumps@.len()
        &&& self.name_of(i) == name
        &&& forall|j: int| i < j < self.lumps@.len() ==> self.name_of(j) != name
    }

    /// The data of the last lump called `name`, or `None` when no lump is.
    pub open spec fn lump_by_name(&self, name: Seq<char>) -> Option<Seq<u8>> {
        if exists|i: int| self.is_last_named(i, name) {
            Some(self.lumps@[choose|i: int| self.is_last_named(i, name)].data@)
        } else {
            None
        }
    }

    /// There is at most one last lump of a given name.
    pub proof fn lemma_last_named_unique(&self, i: int, j: int, name: Seq<char>)
        requires
            self.is_last_named(i, name),
            self.is_last_named(j, name),
        ensures
            i == j,
    {
        if i < j {
            assert(self.name_of(j) != name);
        }
        if j < i {
            assert(self.name_of(i) != name);
        }
    }

    /// The data of the last lump called `name`, if there is one.
    pub fn cache_lump_name(&self, name: &str) -> (r: Option<&[u8]>)
        ensures
            match r {
                Some(d) => self.lump_by_name(name@) == Some(d@),
                None => self.lump_by_name(name@) is None,
            },
    {
        let mut i: usize = self.lumps.len();
        while i > 0
            invariant
                i <= self.lumps@.len(),
                forall|j: int| i <= j < self.lumps@.len() ==> self.name_of(j) != name@,
            decreases i,
        {
            i = i - 1;
            if same_text(self.lumps[i].name.as_str(), name) {
                let d = self.lumps[i].data.as_slice();
                proof {
                    assert(self.is_last_named(i as int, name@));
                    let k = choose|k: int| self.is_last_named(k, name@);
                    self.lemma_last_named_unique(i as int, k, name@);
                }
                return Some(d);
            }
        }
        proof {
            if exists|k: int| self.is_last_named(k, name@) {
                let k = choose|k: int| self.is_last_named(k, name@);
                assert(self.name_of(k) != name@);
            }
        }
        None
    }
}

impl Wad {
    /// Looking a name up from the front (`get_num_for_name`) and from the
    /// back (`cache_lump_name`) agree on whether the archive has a lump of
    /// that name; and when only one lump has it, both find that lump.
    pub proof fn lemma_lookups_agree(&self, name: Seq<char>)
        ensures
            self.first_named(name) is Some <==> self.lump_by_name(name) is Some,
            forall|i: int|
                #![trigger self.is_first_named(i, name), self.is_last_named(i, name)]
                self.is_first_named(i, name) && self.is_last_named(i, name) ==> {
                    &&& self.first_named(name) == Some(i)
                    &&& self.lump_by_name(name) == Some(self.lumps@[i].data@)
                },
    {
        if exists|i: int| 0 <= i < self.lumps@.len() && #[trigger] self.name_of(i) == name {
            let i = choose|i: int| 0 <= i < self.lumps@.len() && #[trigger] self.name_of(i) == name;
            let f = self.lemma_first_named_exists(name, i);
            let l = self.lemma_last_named_exists(name, i);
            assert(self.is_first_named(f, name));
            assert(self.is_last_named(l, name));
        } else {
            if exists|k: int| self.is_first_named(k, name) {
                let k = choose|k: int| self.is_first_named(k, name);
                assert(self.name_of(k) == name);
            }
            if exists|k: int| self.is_last_named(k, name) {
                let k = choose|k: int| self.is_last_named(k, name);
                assert(self.name_of(k) == name);
            }
        }
        assert forall|i: int|
            #![trigger self.is_first_named(i, name), self.is_last_named(i, name)]
            self.is_first_named(i, name) && self.is_last_named(i, name) implies {
            &&& self.first_named(name) == Some(i)
            &&& self.lump_by_name(name) == Some(self.lumps@[i].data@)
        } by {
            let f = choose|k: int| self.is_first_named(k, name);
            let l = choose|k: int| self.is_last_named(k, name);
            if f < i {
                assert(self.name_of(f) != name);
            }
            if i < f {
                assert(self.name_of(i) != name);
            }
            self.lemma_last_named_unique(i, l, name);
        }
    }

    /// If lump `i` is called `name`, some lump is the first of that name.
    proof fn lemma_first_named_exists(&self, name: Seq<char>, i: int) -> (f: int)
        requires
            0 <= i < self.lumps@.len(),
            self.name_of(i) == name,
        ensures
            self.is_first_named(f, name),
        decreases i,
    {
        if exists|j: int| 0 <= j < i && #[trigger] self.name_of(j) == name {
            let j = choose|j: int| 0 <= j < i && #[trigger] self.name_of(j) == name;
            self.lemma_first_named_exists(name, j)
        } else {
            i
        }
    }

    /// If lump `i` is called `name`, some lump is the last of that name.
    proof fn lemma_last_named_exists(&self, name: Seq<char>, i: int) -> (l: int)
        requires
            0 <= i < self.lumps@.len(),
            self.name_of(i) == name,
        ensures
            self.is_last_named(l, name),
        decreases self.lumps@.len() - i,
    {
        if exists|j: int| i < j < self.lumps@.len() && #[trigger] self.name_of(j) == name {
            let j = choose|j: int| i < j < self.lumps@.len() && #[trigger] self.name_of(j) == name;
            self.lemma_last_named_exists(name, j)
        } else {
            i
        }
    }
}

/// In an archive that reads without error, every lump holds exactly as many
/// bytes as its directory entry announces, and a lump that is not empty lies
/// inside the file.
pub proof fn lemma_read_lump_holds_len(l: Lump, d: Seq<u8>, i: int)
    requires
        wad_error(d) is None,
        0 <= i < lump_count(d),
        lump_read_from(l, d, i),
    ensures
        l.data@.len() == l.len,
        l.len > 0 ==> l.pos + l.len <= d.len(),
{
    assert(!lump_out_of_range(d, i));
}

/// Whether two strings hold the same characters, compared through their UTF-8 bytes.
pub fn same_text(a: &str, b: &str) -> (r: bool)
    ensures
        r == (a@ == b@),
{
    let x = a.as_bytes();
    let y = b.as_bytes();
    proof {
        encode_utf8_decode_utf8(a@);
        encode_utf8_decode_utf8(b@);
    }
    if x.len() != y.len() {
        return false;
    }
    let mut k: usize = 0;
    while k < x.len()
        invariant
            x@.len() == y@.len(),
            x@ == a.spec_bytes(),
            y@ == b.spec_bytes(),
            k <= x@.len(),
            forall|j: int| 0 <= j < k ==> x@[j] == y@[j],
        decreases x@.len() - k,
    {
        if x[k] != y[k] {
            return false;
        }
        k = k + 1;
    }
    assert(x@ =~= y@);
    true
}

/// What `wad_error` comes to once the header has been read and accepted.
spec fn wad_error_after_header(d: Seq<u8>) -> Option<WadError> {
    if exists|i: int|
        0 <= i < lump_count(d) && entry_complete(d, i) && !valid_utf8(#[trigger] entry_name(d, i)) {
        Some(WadError::InvalidUtf8)
    } else if exists|i: int| 0 <= i < lump_count(d) && !#[trigger] entry_complete(d, i) {
        Some(WadError::UnexpectedEof)
    } else {
        wad_error_after_directory(d)
    }
}

/// What `wad_error` comes to once the whole directory has been read and accepted.
spec fn wad_error_after_directory(d: Seq<u8>) -> Option<WadError> {
    if exists|i: int|
        0 <= i < lump_count(d) && #[trigger] lump_out_of_range(d, i) {
        Some(WadError::UnexpectedEof)
    } else {
        None
    }
}

/// `l` holds the name, position and length of the `i`-th directory entry of `d`.
spec fn directory_entry_read(l: Lump, d: Seq<u8>, i: int) -> bool {
    &&& l.name@ == lump_name(entry_name(d, i))
    &&& l.pos == entry_pos(d, i)
    &&& l.len == entry_len(d, i)
}

/// A fresh copy of `data[start..end]`.
fn copy_bytes(data: &[u8], start: usize, end: usize) -> (r: Vec<u8>)
    requires
        start <= end <= data@.len(),
    ensures
        r@ == data@.subrange(start as int, end as int),
{
    let mut r: Vec<u8> = Vec::new();
    let mut k = start;
    while k < end
        invariant
            start <= k <= end <= data@.len(),
            r@ == data@.subrange(start as int, k as int),
        decreases end - k,
    {
        r.push(data[k]);
        k = k + 1;
    }
    r
}

} // verus!
