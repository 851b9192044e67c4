use vstd::prelude::*;

use crate::memory::{lemma_round_up, round_up};
use vstd::string::StringSliceAdditionalSpecFns;

verus! {

/// The magic of a ustar header: "ustar" and a NUL byte.
pub open spec fn ustar_mag() -> Seq<u8> {
    seq![117u8, 115u8, 116u8, 97u8, 114u8, 0u8]
}

/// Size of a header and of the blocks file data is padded to.
pub const BLOCK_SIZE: usize = 512;

/// A ustar header block.
#[derive(Clone, Copy)]
pub struct UstarHeader {
    pub filename: [u8; 100],
    pub mode: u64,
    pub owner_id: u64,
    pub group_id: u64,
    pub size_ascii_octal: [u8; 12],
    pub last_modified: [u8; 12],
    pub checksum: u64,
    pub file_type: u8,
    pub linked_name: [u8; 100],
    pub mag: [u8; 6],
    pub version: [u8; 2],
    pub owner_name: [u8; 32],
    pub owner_group_name: [u8; 32],
    pub device_major: u64,
    pub device_minor: u64,
    pub filename_prefix: [u8; 155],
    pub _padding: [u8; 12],
}

/// The bytes of `s` before its first NUL byte.
pub open spec fn until_nul(s: Seq<u8>) -> Seq<u8>
    decreases s.len(),
{
    if s.len() == 0 || s[0] == 0 {
        seq![]
    } else {
        seq![s[0]] + until_nul(s.subrange(1, s.len() as int))
    }
}

/// The value of the first `n` bytes of `s` read as octal digits, each digit
/// being the byte minus '0'.
pub open spec fn octal_prefix(s: Seq<u8>, n: nat) -> int
    decreases n,
{
    if n == 0 {
        0
    } else {
        octal_prefix(s, (n - 1) as nat) * 8 + (s[n - 1] - 48)
    }
}

/// Every one of the first `n` bytes is at least '0'.
pub open spec fn digits_ok(s: Seq<u8>, n: nat) -> bool {
    forall|j: int| 0 <= j < n ==> #[trigger] s[j] >= 48
}

/// Little-endian value of the eight bytes of `s` from `off`.
pub open spec fn le_u64(s: Seq<u8>, off: int) -> u64 {
    vstd::bytes::spec_u64_from_le_bytes(s.subrange(off, off + 8))
}

impl UstarHeader {
    /// The header is the 512 bytes `s`, field by field in order.
    pub open spec fn parsed_from(&self, s: Seq<u8>) -> bool {
        &&& s.len() == 512
        &&& self.filename@ == s.subrange(0, 100)
        &&& self.mode == le_u64(s, 100)
        &&& self.owner_id == le_u64(s, 108)
        &&& self.group_id == le_u64(s, 116)
        &&& self.size_ascii_octal@ == s.subrange(124, 136)
        &&& self.last_modified@ == s.subrange(136, 148)
        &&& self.checksum == le_u64(s, 148)
        &&& self.file_type == s[156]
        &&& self.linked_name@ == s.subrange(157, 257)
        &&& self.mag@ == s.subrange(257, 263)
        &&& self.version@ == s.subrange(263, 265)
        &&& self.owner_name@ == s.subrange(265, 297)
        &&& self.owner_group_name@ == s.subrange(297, 329)
        &&& self.device_major == le_u64(s, 329)
        &&& self.device_minor == le_u64(s, 337)
        &&& self.filename_prefix@ == s.subrange(345, 500)
        &&& self._padding@ == s.subrange(500, 512)
    }

    /// The full name: the prefix then the name, each up to its first NUL.
    pub open spec fn full_name(&self) -> Seq<u8> {
        until_nul(self.filename_prefix@) + until_nul(self.filename@)
    }

    /// Reads a header from the 512 bytes at `off`.
    pub fn parse(bytes: &[u8], off: usize) -> (r: Self)
        requires
            off + 512 <= bytes@.len(),
        ensures
            r.parsed_from(bytes@.subrange(off as int, off + 512)),
    {
        let ghost s = bytes@.subrange(off as int, off + 512);
        let _len = bytes.len();
        let r = UstarHeader {
            filename: copy_array::<100>(bytes, off),
            mode: read_u64(bytes, off + 100),
            owner_id: read_u64(bytes, off + 108),
            group_id: read_u64(bytes, off + 116),
            size_ascii_octal: copy_array::<12>(bytes, off + 124),
            last_modified: copy_array::<12>(bytes, off + 136),
            checksum: read_u64(bytes, off + 148),
            file_type: bytes[off + 156],
            linked_name: copy_array::<100>(bytes, off + 157),
            mag: copy_array::<6>(bytes, off + 257),
            version: copy_array::<2>(bytes, off + 263),
            owner_name: copy_array::<32>(bytes, off + 265),
            owner_group_name: copy_array::<32>(bytes, off + 297),
            device_major: read_u64(bytes, off + 329),
            device_minor: read_u64(bytes, off + 337),
            filename_prefix: copy_array::<155>(bytes, off + 345),
            _padding: copy_array::<12>(bytes, off + 500),
        };
        proof {
            assert(r.filename@ =~= s.subrange(0, 100));
            assert(r.size_ascii_octal@ =~= s.subrange(124, 136));
            assert(r.last_modified@ =~= s.subrange(136, 148));
            assert(r.linked_name@ =~= s.subrange(157, 257));
            assert(r.mag@ =~= s.subrange(257, 263));
            assert(r.version@ =~= s.subrange(263, 265));
            assert(r.owner_name@ =~= s.subrange(265, 297));
            assert(r.owner_group_name@ =~= s.subrange(297, 329));
            assert(r.filename_prefix@ =~= s.subrange(345, 500));
            assert(r._padding@ =~= s.subrange(500, 512));
            assert(s.subrange(100, 108) =~= bytes@.subrange(off + 100, off + 108));
            assert(s.subrange(108, 116) =~= bytes@.subrange(off + 108, off + 116));
            assert(s.subrange(116, 124) =~= bytes@.subrange(off + 116, off + 124));
            assert(s.subrange(148, 156) =~= bytes@.subrange(off + 148, off + 156));
            assert(s.subrange(329, 337) =~= bytes@.subrange(off + 329, off + 337));
            assert(s.subrange(337, 345) =~= bytes@.subrange(off + 337, off + 345));
        }
        r
    }

    /// Whether the header carries the ustar magic.
    pub fn validate(&self) -> (r: bool)
        ensures
            r == (self.mag@ == ustar_mag()),
    {
        let m = &self.mag;
        let ok = m[0] == 117 && m[1] == 115 && m[2] == 116 && m[3] == 97 && m[4] == 114 && m[5]
            == 0;
        proof {
            if ok {
                assert(self.mag@ =~= ustar_mag());
            }
        }
        ok
    }

    /// Length of the file, from the first eleven bytes of the size field read
    /// as octal digits.
    pub fn file_length(&self) -> (r: usize)
        requires
            digits_ok(self.size_ascii_octal@, 11),
            octal_prefix(self.size_ascii_octal@, 11) <= usize::MAX,
        ensures
            r == octal_prefix(self.size_ascii_octal@, 11),
    {
        let mut v: usize = 0;
        let mut i: usize = 0;
        while i < 11
            invariant
                0 <= i <= 11,
                digits_ok(self.size_ascii_octal@, 11),
                octal_prefix(self.size_ascii_octal@, 11) <= usize::MAX,
                v == octal_prefix(self.size_ascii_octal@, i as nat),
            decreases 11 - i,
        {
            proof {
                lemma_octal_prefix_grows(self.size_ascii_octal@, (i + 1) as nat, 11);
            }
            v = v * 8 + (self.size_ascii_octal[i] - 48) as usize;
            i = i + 1;
        }
        v
    }

    /// The full name and its length: the prefix then the name, each up to its
    /// first NUL byte.
    pub fn file_name(&self) -> (r: ([u8; 255], usize))
        ensures
            r.1 == self.full_name().len(),
            r.1 <= 255,
            r.0@.subrange(0, r.1 as int) == self.full_name(),
            forall|j: int| r.1 <= j < 255 ==> r.0@[j] == 0,
    {
        let mut full: [u8; 255] = [0; 255];
        let mut size: usize = 0;
        let mut i: usize = 0;
        proof {
            assert(self.filename_prefix@.subrange(0, 155) =~= self.filename_prefix@);
            assert(self.filename_prefix@.subrange(0, 0) + until_nul(
                self.filename_prefix@.subrange(0, 155),
            ) =~= until_nul(self.filename_prefix@));
            assert(full@.subrange(0, 0) =~= self.filename_prefix@.subrange(0, 0));
        }
        while i < 155 && self.filename_prefix[i] != 0
            invariant
                0 <= i <= 155,
                size == i,
                until_nul(self.filename_prefix@) == self.filename_prefix@.subrange(0, i as int)
                    + until_nul(self.filename_prefix@.subrange(i as int, 155)),
                full@.subrange(0, size as int) == self.filename_prefix@.subrange(0, i as int),
                forall|j: int| size <= j < 255 ==> full@[j] == 0,
                full@.len() == 255,
            decreases 155 - i,
        {
            proof {
                lemma_until_nul_step(self.filename_prefix@, i as int);
            }
            full[size] = self.filename_prefix[i];
            proof {
                assert(full@.subrange(0, size + 1) =~= self.filename_prefix@.subrange(0, i + 1));
            }
            size = size + 1;
            i = i + 1;
        }
        proof {
            lemma_until_nul_stop(self.filename_prefix@, i as int);
        }
        let ghost pre = size;
        let mut k: usize = 0;
        proof {
            assert(self.filename@.subrange(0, 100) =~= self.filename@);
            assert(until_nul(self.filename_prefix@) =~= self.filename_prefix@.subrange(0, i as int));
            assert(full@.subrange(0, size as int) =~= until_nul(self.filename_prefix@)
                + self.filename@.subrange(0, 0));
            assert(self.filename@.subrange(0, 0) + until_nul(self.filename@.subrange(0, 100))
                =~= until_nul(self.filename@));
        }
        while k < 100 && self.filename[k] != 0
            invariant
                0 <= k <= 100,
                pre <= 155,
                until_nul(self.filename_prefix@).len() == pre,
                size == pre + k,
                until_nul(self.filename@) == self.filename@.subrange(0, k as int) + until_nul(
                    self.filename@.subrange(k as int, 100),
                ),
                full@.subrange(0, size as int) == until_nul(self.filename_prefix@)
                    + self.filename@.subrange(0, k as int),
                forall|j: int| size <= j < 255 ==> full@[j] == 0,
                full@.len() == 255,
            decreases 100 - k,
        {
            proof {
                lemma_until_nul_step(self.filename@, k as int);
            }
            let ghost old_full = full@;
            full[size] = self.filename[k];
            proof {
                assert(full@.subrange(0, size as int) =~= old_full.subrange(0, size as int));
                assert(full@.subrange(0, size + 1) =~= full@.subrange(0, size as int).push(
                    full@[size as int],
                ));
                assert(self.filename@.subrange(0, k + 1) =~= self.filename@.subrange(
                    0,
                    k as int,
                ).push(self.filename@[k as int]));
                assert(full@.subrange(0, size + 1) =~= until_nul(self.filename_prefix@)
                    + self.filename@.subrange(0, k + 1));
            }
            size = size + 1;
            k = k + 1;
        }
        proof {
            lemma_until_nul_stop(self.filename@, k as int);
            assert(until_nul(self.filename@) =~= self.filename@.subrange(0, k as int));
        }
        (full, size)
    }

    /// Whether the full name is exactly `rhs`.
    pub fn compare_names(&self, rhs: &str) -> (r: bool)
        ensures
            r == (self.full_name() == rhs.spec_bytes()),
    {
        let (name, len) = self.file_name();
        let other = rhs.as_bytes();
        if len != other.len() {
            return false;
        }
        let mut i: usize = 0;
        while i < len
            invariant
                0 <= i <= len,
                len == other@.len(),
                name@.subrange(0, len as int) == self.full_name(),
                other@ == rhs.spec_bytes(),
                forall|j: int| 0 <= j < i ==> name@[j] == other@[j],
                len <= 255,
                name@.len() == 255,
            decreases len - i,
        {
            if name[i] != other[i] {
                proof {
                    assert(self.full_name()[i as int] == name@[i as int]);
                }
                return false;
            }
            i = i + 1;
        }
        proof {
            assert(self.full_name() =~= other@);
        }
        true
    }
}

/// Why a file could not be had from an archive.
#[derive(Debug, Clone, Copy, PartialEq, Eq, Structural)]
pub enum UstarError {
    FileNotFound,
    IncorrectFormat,
}

/// Kinds of archive members.
#[derive(Debug, Clone, Copy, PartialEq, Eq, Structural)]
pub enum UstarFileType {
    Normal,
    SymLink,
    CharDev,
    BlockDev,
    Dir,
    FifoPipe,
    Unknown,
}

/// The full name of the header held in the 512 bytes `h`.
pub open spec fn name_in(h: Seq<u8>) -> Seq<u8> {
    until_nul(h.subrange(345, 500)) + until_nul(h.subrange(0, 100))
}

/// The length of the file whose header is the 512 bytes `h`, when its size
/// field can be read.
pub open spec fn size_in(h: Seq<u8>) -> Option<int> {
    let f = h.subrange(124, 136);
    if digits_ok(f, 11) && octal_prefix(f, 11) <= usize::MAX {
        Some(octal_prefix(f, 11))
    } else {
        None
    }
}

/// The length of the file of the member at `off` of the archive `data`:
/// `None` where the walk stops, at a header without the ustar magic, one
/// whose size field cannot be read, or one that does not fit in the archive
/// together with its file.
pub open spec fn member_at(data: Seq<u8>, off: int) -> Option<int> {
    if off + 512 > data.len() {
        None
    } else {
        let h = data.subrange(off, off + 512);
        if h.subrange(257, 263) != ustar_mag() {
            None
        } else {
            match size_in(h) {
                None => None,
                Some(len) => if off + 512 + len <= data.len() && next_member(off, len)
                    <= usize::MAX {
                    Some(len)
                } else {
                    None
                },
            }
        }
    }
}

/// Largest value eleven bytes read as octal digits can have, for `n` bytes.
pub open spec fn octal_cap(n: nat) -> int
    decreases n,
{
    if n == 0 {
        0
    } else {
        octal_cap((n - 1) as nat) * 8 + 255
    }
}

proof fn lemma_octal_cap(i: nat)
    requires
        i <= 11,
    ensures
        octal_cap(i) <= octal_cap(11),
        octal_cap(11) == 312919045815,
    decreases 11 - i,
{
    assert(octal_cap(0) == 0);
    assert(octal_cap(1) == 255);
    assert(octal_cap(2) == 2295);
    assert(octal_cap(3) == 18615);
    assert(octal_cap(4) == 149175);
    assert(octal_cap(5) == 1193655);
    assert(octal_cap(6) == 9549495);
    assert(octal_cap(7) == 76396215);
    assert(octal_cap(8) == 611169975);
    assert(octal_cap(9) == 4889360055);
    assert(octal_cap(10) == 39114880695);
    assert(octal_cap(11) == 312919045815);
    if i < 11 {
        lemma_octal_cap(i + 1);
    }
}

/// Offset of the member after the one at `off`, whose file is `len` bytes:
/// the file is padded to whole blocks.
pub open spec fn next_member(off: int, len: int) -> int {
    off + 512 + round_up(len, 512)
}

/// Offset of the first member from `off` on whose full name is `name`, if the
/// walk reaches one, with the offset the walk goes on from.
pub open spec fn find_from(data: Seq<u8>, off: int, name: Seq<u8>) -> (Option<int>, int)
    decreases data.len() + 512 - off,
{
    if off < 0 {
        (None, off)
    } else {
        match member_at(data, off) {
            None => (None, off),
            Some(len) => if name_in(data.subrange(off, off + 512)) == name {
                (Some(off), next_member(off, len))
            } else {
                if len >= 0 {
                    proof {
                        lemma_round_up(len, 512);
                    }
                    find_from(data, next_member(off, len), name)
                } else {
                    (None, off)
                }
            },
        }
    }
}

/// A ustar archive held in memory.
pub struct UstarArchive {
    data: Vec<u8>,
    length: usize,
}

/// Walks the members of an archive.
pub struct UstarIter<'a> {
    data: &'a [u8],
    next: usize,
}

impl UstarArchive {
    /// The archive's bytes.
    pub closed spec fn bytes(&self) -> Seq<u8> {
        self.data@
    }

    /// The archive made of `data`, said to be `length` bytes long.
    pub fn new(data: Vec<u8>, length: usize) -> (r: Self)
        ensures
            r.bytes() == data@,
    {
        Self { data, length }
    }

    /// A walk over the members, from the first one.
    pub fn iter(&self) -> (r: UstarIter<'_>)
        ensures
            r.bytes() == self.bytes(),
            r.position() == 0,
    {
        UstarIter { data: self.data.as_slice(), next: 0 }
    }
}

impl<'a> UstarIter<'a> {
    /// The archive's bytes.
    pub closed spec fn bytes(&self) -> Seq<u8> {
        self.data@
    }

    /// Offset of the member the walk reads next.
    pub closed spec fn position(&self) -> int {
        self.next as int
    }

    /// The member at the current position, its header and its file, moving
    /// to the member after it; `None`, staying in place, where the walk stops.
    #[verifier::loop_isolation(false)]
    pub fn next(&mut self) -> (r: Option<(UstarHeader, Vec<u8>)>)
        ensures
            final(self).bytes() == old(self).bytes(),
            ({
                let data = old(self).bytes();
                let off = old(self).position();
                match member_at(data, off) {
                    None => r is None && final(self).position() == off,
                    Some(len) => r matches Some((h, file)) && {
                        &&& h.parsed_from(data.subrange(off, off + 512))
                        &&& file@ == data.subrange(off + 512, off + 512 + len)
                        &&& final(self).position() == next_member(off, len)
                    },
                }
            }),
    {
        let n = self.data.len();
        let off = self.next;
        if n < 512 || off > n - 512 {
            return None;
        }
        let header = UstarHeader::parse(self.data, off);
        proof {
            assert(header.mag@ == self.data@.subrange(off as int, off + 512).subrange(257, 263));
            assert(header.size_ascii_octal@ == self.data@.subrange(off as int, off + 512).subrange(
                124,
                136,
            ));
        }
        if !header.validate() {
            return None;
        }
        let mut j: usize = 0;
        while j < 11
            invariant
                0 <= j <= 11,
                header.size_ascii_octal@.len() == 12,
                forall|k: int| 0 <= k < j ==> #[trigger] header.size_ascii_octal@[k] >= 48,
            decreases 11 - j,
        {
            if header.size_ascii_octal[j] < 48 {
                proof {
                    let f = self.data@.subrange(off as int, off + 512).subrange(124, 136);
                    assert(f[j as int] < 48);
                    assert(!digits_ok(f, 11));
                }
                return None;
            }
            j = j + 1;
        }
        let mut big: u64 = 0;
        let mut i: usize = 0;
        while i < 11
            invariant
                0 <= i <= 11,
                digits_ok(header.size_ascii_octal@, 11),
                big == octal_prefix(header.size_ascii_octal@, i as nat),
                0 <= big <= octal_cap(i as nat),
            decreases 11 - i,
        {
            proof {
                lemma_octal_cap((i + 1) as nat);
            }
            big = big * 8 + (header.size_ascii_octal[i] - 48) as u64;
            i = i + 1;
        }
        if big > usize::MAX as u64 {
            return None;
        }
        let len = header.file_length();
        if len > n - 512 - off {
            return None;
        }
        let start = off + 512;
        let mut file: Vec<u8> = Vec::new();
        let mut k: usize = 0;
        while k < len
            invariant
                0 <= k <= len,
                start + len <= n,
                n == self.data@.len(),
                file@ == self.data@.subrange(start as int, start + k),
            decreases len - k,
        {
            file.push(self.data[start + k]);
            proof {
                assert(file@ =~= self.data@.subrange(start as int, start + k + 1));
            }
            k = k + 1;
        }
        proof {
            lemma_round_up(len as int, 512);
        }
        let padded = if len % 512 == 0 {
            len
        } else {
            len + (512 - len % 512)
        };
        if padded > usize::MAX - start {
            return None;
        }
        self.next = start + padded;
        Some((header, file))
    }

    /// Walks on to the first member whose full name is `name` and returns it;
    /// `None` when the walk stops first.
    pub fn find_file(&mut self, name: &str) -> (r: Option<(UstarHeader, Vec<u8>)>)
        ensures
            final(self).bytes() == old(self).bytes(),
            ({
                let (found, after) = find_from(old(self).bytes(), old(self).position(), name.spec_bytes());
                &&& final(self).position() == after
                &&& match found {
                    None => r is None,
                    Some(off) => r matches Some((h, file)) && {
                        let data = old(self).bytes();
                        &&& h.parsed_from(data.subrange(off, off + 512))
                        &&& match member_at(data, off) {
                            Some(len) => file@ == data.subrange(off + 512, off + 512 + len),
                            None => false,
                        }
                    },
                }
            }),
    {
        loop
            invariant
                self.bytes() == old(self).bytes(),
                find_from(old(self).bytes(), old(self).position(), name.spec_bytes()) == find_from(
                    self.bytes(),
                    self.position(),
                    name.spec_bytes(),
                ),
                self.position() >= 0,
            decreases self.bytes().len() + 512 - self.position(),
        {
            let ghost off = self.position();
            match self.next() {
                None => {
                    return None;
                },
                Some((header, file)) => {
                    proof {
                        let len = member_at(self.bytes(), off)->0;
                        let f = self.bytes().subrange(off, off + 512).subrange(124, 136);
                        lemma_octal_prefix_grows(f, 0, 11);
                        lemma_round_up(len, 512);
                        lemma_name_in(header, self.bytes().subrange(off, off + 512));
                    }
                    if header.compare_names(name) {
                        return Some((header, file));
                    }
                },
            }
        }
    }
}

/// The full name of a header read from bytes is the name those bytes hold.
pub proof fn lemma_name_in(h: UstarHeader, s: Seq<u8>)
    requires
        h.parsed_from(s),
    ensures
        h.full_name() == name_in(s),
{
}

/// `N` bytes of `bytes` from `off`.
pub(crate) fn copy_array<const N: usize>(bytes: &[u8], off: usize) -> (r: [u8; N])
    requires
        off + N <= bytes@.len(),
    ensures
        r@ == bytes@.subrange(off as int, off + N),
{
    let _len = bytes.len();
    let mut a: [u8; N] = [0u8; N];
    let mut i: usize = 0;
    while i < N
        invariant
            0 <= i <= N,
            off + N <= bytes@.len(),
            _len == bytes@.len(),
            a@.len() == N,
            forall|j: int| 0 <= j < i ==> a@[j] == bytes@[off + j],
        decreases N - i,
    {
        a[i] = bytes[off + i];
        i = i + 1;
    }
    assert(a@ =~= bytes@.subrange(off as int, off + N));
    a
}

/// The little-endian 64-bit value of the eight bytes of `bytes` from `off`.
pub(crate) fn read_u64(bytes: &[u8], off: usize) -> (r: u64)
    requires
        off + 8 <= bytes@.len(),
    ensures
        r == le_u64(bytes@, off as int),
{
    let _len = bytes.len();
    let part = vstd::slice::slice_subrange(bytes, off, off + 8);
    vstd::bytes::u64_from_le_bytes(part)
}

proof fn lemma_octal_prefix_grows(s: Seq<u8>, i: nat, n: nat)
    requires
        i <= n <= s.len(),
        digits_ok(s, n),
    ensures
        0 <= octal_prefix(s, i) <= octal_prefix(s, n),
    decreases n,
{
    if n > 0 {
        if i < n {
            lemma_octal_prefix_grows(s, i, (n - 1) as nat);
        } else {
            lemma_octal_prefix_grows(s, (n - 1) as nat, (n - 1) as nat);
        }
        assert(s[n - 1] >= 48);
    }
}

proof fn lemma_until_nul_step(s: Seq<u8>, i: int)
    requires
        0 <= i < s.len(),
        s[i] != 0,
    ensures
        until_nul(s.subrange(i, s.len() as int)) == seq![s[i]] + until_nul(
            s.subrange(i + 1, s.len() as int),
        ),
        s.subrange(0, i) + seq![s[i]] == s.subrange(0, i + 1),
{
    let t = s.subrange(i, s.len() as int);
    assert(t.subrange(1, t.len() as int) =~= s.subrange(i + 1, s.len() as int));
    assert(s.subrange(0, i) + seq![s[i]] =~= s.subrange(0, i + 1));
}

proof fn lemma_until_nul_stop(s: Seq<u8>, i: int)
    requires
        0 <= i <= s.len(),
        i < s.len() ==> s[i] == 0,
    ensures
        until_nul(s.subrange(i, s.len() as int)) == Seq::<u8>::empty(),
{
    if i < s.len() {
        assert(s.subrange(i, s.len() as int)[0] == 0);
    }
}

} // verus!
