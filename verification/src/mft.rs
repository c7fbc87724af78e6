//! NTFS engine, parsing side: interprets raw volume bytes as the boot
//! region and as fixed-size Master File Table records, to the standard
//! on-disk layout.  Read-only; every structural doubt makes the record
//! malformed rather than guessed at.

use vstd::prelude::*;
use vstd::string::{StrSliceExecFns, StringExecFns};

verus! {

use crate::bytes::{le_bytes, lemma_le_bytes_bound, pow256, read_le};

/// 2 to the power `n`.
pub open spec fn pow2(n: nat) -> int
    decreases n,
{
    if n == 0 {
        1
    } else {
        2 * pow2((n - 1) as nat)
    }
}

pub proof fn lemma_pow2_mono(a: nat, b: nat)
    requires
        a <= b,
    ensures
        0 < pow2(a) <= pow2(b),
    decreases b,
{
    if b > 0 {
        if a == b {
            lemma_pow2_mono((a - 1) as nat, (b - 1) as nat);
        } else {
            lemma_pow2_mono(a, (b - 1) as nat);
        }
    }
}

pub proof fn lemma_pow2_20()
    ensures
        pow2(20) == 0x100000,
        pow2(21) == 0x200000,
{
    assert(pow2(0) == 1);
    assert(pow2(1) == 2);
    assert(pow2(2) == 4);
    assert(pow2(3) == 8);
    assert(pow2(4) == 16);
    assert(pow2(5) == 32);
    assert(pow2(6) == 64);
    assert(pow2(7) == 128);
    assert(pow2(8) == 256);
    assert(pow2(9) == 512);
    assert(pow2(10) == 1024);
    assert(pow2(11) == 2048);
    assert(pow2(12) == 4096);
    assert(pow2(13) == 8192);
    assert(pow2(14) == 16384);
    assert(pow2(15) == 32768);
    assert(pow2(16) == 65536);
    assert(pow2(17) == 131072);
    assert(pow2(18) == 262144);
    assert(pow2(19) == 524288);
    assert(pow2(20) == 1048576);
    assert(pow2(21) == 2097152);
}

/// The boot parameters the NTFS engine needs: the byte size of one file
/// record, and the byte offset of the MFT on the volume.
pub struct BootParams {
    pub record_size: u64,
    pub mft_start: u64,
}

/// What the boot region yields: the boot sector carries an OEM signature,
/// sector and cluster geometry, the MFT's starting cluster, and a file
/// record size given either in clusters or as a negative power of two.
pub open spec fn boot_spec(b: Seq<u8>) -> Option<(int, int)> {
    if b.len() < 512 {
        None
    } else if !(b[3] == 78 && b[4] == 84 && b[5] == 70 && b[6] == 83 && b[7] == 32 && b[8] == 32
        && b[9] == 32 && b[10] == 32) {
        None
    } else {
        let bps = le_bytes(b, 11, 2);
        let spc = b[13] as int;
        if bps < 256 || bps > 4096 || spc < 1 {
            None
        } else {
            let cluster = bps * spc;
            let mft_lcn = le_bytes(b, 48, 8);
            let cpr = b[64] as int;
            let rsize = if 1 <= cpr && cpr <= 127 {
                cpr * cluster
            } else if 193 <= cpr && cpr <= 255 {
                pow2((256 - cpr) as nat)
            } else {
                0
            };
            if rsize < 24 || rsize > 0x100000 {
                None
            } else if mft_lcn * cluster > u64::MAX {
                None
            } else {
                Some((rsize, mft_lcn * cluster))
            }
        }
    }
}

/// Parses the volume's boot sector.  `None` is the structural failure
/// that abandons the whole NTFS engine.
pub fn parse_boot_sector(b: &[u8]) -> (r: Option<BootParams>)
    ensures
        r matches Some(bp) ==> boot_spec(b@) == Some((bp.record_size as int, bp.mft_start as int))
            && 24 <= bp.record_size <= 0x100000,
        r is None ==> boot_spec(b@) is None,
{
    let blen = b.len();
    if blen < 512 {
        return None;
    }
    if !(b[3] == 78 && b[4] == 84 && b[5] == 70 && b[6] == 83 && b[7] == 32 && b[8] == 32 && b[9]
        == 32 && b[10] == 32) {
        return None;
    }
    let bps: u64 = read_le(b, 11, 2);
    let spc: u64 = b[13] as u64;
    if bps < 256 || bps > 4096 || spc < 1 {
        return None;
    }
    proof {
        assert(bps as int * spc as int <= 4096 * 255) by (nonlinear_arith)
            requires
                bps <= 4096,
                spc <= 255,
                0 <= bps,
                0 <= spc,
        ;
    }
    let cluster: u64 = bps * spc;
    let mft_lcn: u64 = read_le(b, 48, 8);
    let cpr: u64 = b[64] as u64;
    let rsize: u64 = if 1 <= cpr && cpr <= 127 {
        proof {
            assert(cpr as int * cluster as int <= 127 * (4096 * 255)) by (nonlinear_arith)
                requires
                    cpr <= 127,
                    cluster <= 4096 * 255,
                    0 <= cpr,
                    0 <= cluster,
            ;
        }
        cpr * cluster
    } else if 193 <= cpr && cpr <= 255 {
        let k: u64 = 256 - cpr;
        proof {
            lemma_pow2_20();
        }
        if k > 20 {
            proof {
                lemma_pow2_mono(21, k as nat);
            }
            0
        } else {
            let mut r: u64 = 1;
            let mut j: u64 = 0;
            while j < k
                invariant
                    j <= k,
                    k <= 20,
                    r as int == pow2(j as nat),
                    r <= 0x100000,
                decreases k - j,
            {
                proof {
                    lemma_pow2_mono((j + 1) as nat, 20);
                    lemma_pow2_20();
                }
                r = r * 2;
                j = j + 1;
            }
            r
        }
    } else {
        0
    };
    if rsize < 24 || rsize > 0x100000 {
        return None;
    }
    let mft_start = match mft_lcn.checked_mul(cluster) {
        Some(p) => p,
        None => {
            proof {
                assert(mft_lcn as int * cluster as int > u64::MAX);
            }
            return None;
        },
    };
    Some(BootParams { record_size: rsize, mft_start })
}

/// How many file records an MFT of `data_len` bytes holds.
pub fn mft_record_count(data_len: u64, record_size: u64) -> (r: u64)
    requires
        record_size > 0,
    ensures
        r == data_len as int / record_size as int,
{
    data_len / record_size
}

/// What a record's UTF-16 name decodes to; a function of the code units
/// alone.
pub uninterp spec fn utf16_lossy_of(units: Seq<u16>) -> Seq<char>;

/// Relies on `String::from_utf16_lossy`: decodes UTF-16, replacing
/// invalid data with the replacement character.  Code units below the
/// surrogate range decode one-for-one to the characters with the same
/// code points.
#[verifier::external_body]
fn utf16_to_string(units: &Vec<u16>) -> (r: String)
    ensures
        r@ == utf16_lossy_of(units@),
        (forall|i: int| 0 <= i < units@.len() ==> units@[i] < 0xD800) ==> (r@.len()
            == units@.len() && forall|i: int|
            0 <= i < units@.len() ==> r@[i] as u16 == units@[i]),
{
    String::from_utf16_lossy(units)
}

/// The fields of one Master File Table record, as the logic sees them.
pub struct RecordView {
    pub record_number: int,
    pub in_use: bool,
    pub name: Option<Seq<char>>,
    pub parent: int,
    pub data_len: Option<int>,
}

/// One parsed file record: its number, whether it is in use, its first
/// resolvable name with the parent back-reference carried by that name,
/// and the declared length of its first data attribute.
#[derive(Debug, Clone)]
pub struct FileRecord {
    pub record_number: u64,
    pub in_use: bool,
    pub name: Option<String>,
    pub parent: u64,
    pub data_len: Option<u64>,
}

impl View for FileRecord {
    type V = RecordView;

    open spec fn view(&self) -> RecordView {
        RecordView {
            record_number: self.record_number as int,
            in_use: self.in_use,
            name: match self.name {
                Some(s) => Some(s@),
                None => None,
            },
            parent: self.parent as int,
            data_len: match self.data_len {
                Some(d) => Some(d as int),
                None => None,
            },
        }
    }
}

/// The record signature: the bytes `FILE`.
pub open spec fn rec_sig_ok(b: Seq<u8>) -> bool {
    b.len() >= 24 && b[0] == 70 && b[1] == 73 && b[2] == 76 && b[3] == 69
}

/// Bit 0 of the record flags: the record is in use.
pub open spec fn rec_in_use(b: Seq<u8>) -> bool {
    le_bytes(b, 22, 2) % 2 == 1
}

/// The offset of the record's first attribute.
pub open spec fn rec_first_attr(b: Seq<u8>) -> int {
    le_bytes(b, 20, 2)
}

/// A resident name attribute: the parent directory's record number (a
/// 48-bit back-reference) and the UTF-16 code units of the name.
pub open spec fn name_attr_spec(b: Seq<u8>, o: int, alen: int) -> Option<(int, Seq<u16>)> {
    if b[o + 8] != 0 {
        None
    } else {
        let vlen = le_bytes(b, o + 16, 4);
        let voff = le_bytes(b, o + 20, 2);
        if voff + vlen > alen {
            None
        } else if vlen < 66 {
            None
        } else {
            let v = o + voff;
            let nlen = b[v + 64] as int;
            if 66 + 2 * nlen > vlen {
                None
            } else {
                Some(
                    (
                        le_bytes(b, v, 6),
                        Seq::new(nlen as nat, |i: int| le_bytes(b, v + 66 + 2 * i, 2) as u16),
                    ),
                )
            }
        }
    }
}

/// A data attribute's declared byte length: the value length when
/// resident, the data size field when not.
pub open spec fn data_attr_spec(b: Seq<u8>, o: int, alen: int) -> Option<int> {
    if b[o + 8] == 0 {
        Some(le_bytes(b, o + 16, 4))
    } else if alen < 56 {
        None
    } else {
        Some(le_bytes(b, o + 48, 8))
    }
}

/// Walks the attribute list from offset `o`, keeping the first name and
/// the first data attribute found.  `None` means the record is malformed
/// and contributes nothing.
pub open spec fn scan_attrs(
    b: Seq<u8>,
    o: int,
    name: Option<(int, Seq<u16>)>,
    data: Option<int>,
) -> Option<(Option<(int, Seq<u16>)>, Option<int>)>
    decreases b.len() - o,
{
    if o + 4 > b.len() {
        None
    } else if le_bytes(b, o, 4) == 0xFFFFFFFF {
        Some((name, data))
    } else if o + 8 > b.len() {
        None
    } else {
        let alen = le_bytes(b, o + 4, 4);
        if alen < 24 || o + alen > b.len() {
            None
        } else {
            let ty = le_bytes(b, o, 4);
            if ty == 0x30 && name is None {
                match name_attr_spec(b, o, alen) {
                    None => None,
                    Some(nd) => scan_attrs(b, o + alen, Some(nd), data),
                }
            } else if ty == 0x80 && data is None {
                match data_attr_spec(b, o, alen) {
                    None => None,
                    Some(dl) => scan_attrs(b, o + alen, name, Some(dl)),
                }
            } else {
                scan_attrs(b, o + alen, name, data)
            }
        }
    }
}

/// What one raw file record parses to: `None` for a record whose
/// signature or attribute structure is unusable, which the engine skips.
pub open spec fn record_spec(b: Seq<u8>, rn: int) -> Option<RecordView> {
    if !rec_sig_ok(b) {
        None
    } else {
        match scan_attrs(b, rec_first_attr(b), None, None) {
            None => None,
            Some(nd) => Some(
                RecordView {
                    record_number: rn,
                    in_use: rec_in_use(b),
                    name: match nd.0 {
                        Some(p) => Some(utf16_lossy_of(p.1)),
                        None => None,
                    },
                    parent: match nd.0 {
                        Some(p) => p.0,
                        None => 0,
                    },
                    data_len: nd.1,
                },
            ),
        }
    }
}

/// Parses one raw file record.  A record that is malformed in any way
/// yields `None` and is skipped by the engine; per-record trouble is
/// never fatal.
pub fn parse_file_record(b: &[u8], record_number: u64) -> (r: Option<FileRecord>)
    ensures
        r matches Some(rec) ==> record_spec(b@, record_number as int) == Some(rec@),
        r is None ==> record_spec(b@, record_number as int) is None,
{
    let blen = b.len();
    if blen < 24 {
        return None;
    }
    if !(b[0] == 70 && b[1] == 73 && b[2] == 76 && b[3] == 69) {
        return None;
    }
    let flags = read_le(b, 22, 2);
    let in_use = flags % 2 == 1;
    let first_attr = read_le(b, 20, 2);
    proof {
        lemma_le_bytes_bound(b@, 20, 2);
        assert(pow256(0) == 1);
assert(pow256(1) == 256);
assert(pow256(2) == 65536);
    }
    let mut o: usize = first_attr as usize;
    if o > blen {
        return None;
    }
    let mut name_parent: u64 = 0;
    let mut name_units: Option<Vec<u16>> = None;
    let mut data_len: Option<u64> = None;
    let ghost target = scan_attrs(b@, rec_first_attr(b@), None, None);
    let ghost mut sname: Option<(int, Seq<u16>)> = None;
    let ghost mut sdata: Option<int> = None;
    let mut done = false;
    while !done
        invariant
            blen == b@.len(),
            24 <= blen,
            o <= blen,
            rec_sig_ok(b@),
            in_use == rec_in_use(b@),
            target == scan_attrs(b@, rec_first_attr(b@), None, None),
            sname == (match name_units {
                Some(u) => Some((name_parent as int, u@)),
                None => None::<(int, Seq<u16>)>,
            }),
            sdata == (match data_len {
                Some(d) => Some(d as int),
                None => None::<int>,
            }),
            name_units is None ==> name_parent == 0,
            !done ==> scan_attrs(b@, o as int, sname, sdata) == target,
            done ==> target == Some((sname, sdata)),
        decreases (blen - o) + (if done {
            0int
        } else {
            1int
        }),
    {
        if blen - o < 4 {
            return None;
        }
        let ty = read_le(b, o, 4);
        if ty == 0xFFFFFFFF {
            done = true;
        } else {
            if blen - o < 8 {
                return None;
            }
            let alen64 = read_le(b, o + 4, 4);
            if alen64 < 24 {
                return None;
            }
            if alen64 > (blen - o) as u64 {
                return None;
            }
            let alen = alen64 as usize;
            proof {
                assert(alen as int == alen64 as int);
            }
            if ty == 0x30 && name_units.is_none() {
                if b[o + 8] != 0 {
                    return None;
                }
                let vlen64 = read_le(b, o + 16, 4);
                let voff64 = read_le(b, o + 20, 2);
                if vlen64 > alen64 || voff64 > alen64 - vlen64 {
                    proof {
                        assert(le_bytes(b@, o + 20, 2) + le_bytes(b@, o + 16, 4) > alen as int);
                    }
                    return None;
                }
                if vlen64 < 66 {
                    return None;
                }
                let vlen = vlen64 as usize;
                let voff = voff64 as usize;
                proof {
                    lemma_le_bytes_bound(b@, o + 20, 2);
                    assert(pow256(0) == 1);
assert(pow256(1) == 256);
assert(pow256(2) == 65536);
                    assert(voff as int == voff64 as int);
                    assert(vlen as int == vlen64 as int);
                }
                let v = o + voff;
                let nlen = b[v + 64] as usize;
                if (66 + 2 * nlen) as u64 > vlen64 {
                    return None;
                }
                let parent = read_le(b, v, 6);
                let ghost uspec = Seq::new(
                    nlen as nat,
                    |i: int| le_bytes(b@, v + 66 + 2 * i, 2) as u16,
                );
                let mut units: Vec<u16> = Vec::new();
                let mut idx: usize = 0;
                while idx < nlen
                    invariant
                        idx <= nlen,
                        blen == b@.len(),
                        v + 66 + 2 * nlen <= blen,
                        uspec == Seq::new(
                            nlen as nat,
                            |i: int| le_bytes(b@, v + 66 + 2 * i, 2) as u16,
                        ),
                        units@.len() == idx,
                        forall|t: int| 0 <= t < idx ==> units@[t] == uspec[t],
                    decreases nlen - idx,
                {
                    let u = read_le(b, v + 66 + 2 * idx, 2);
                    proof {
                        lemma_le_bytes_bound(b@, v + 66 + 2 * idx as int, 2);
                        assert(pow256(0) == 1);
assert(pow256(1) == 256);
assert(pow256(2) == 65536);
                    }
                    units.push(u as u16);
                    idx = idx + 1;
                }
                proof {
                    assert(units@ =~= uspec);
                    assert(name_attr_spec(b@, o as int, alen as int) == Some(
                        (parent as int, uspec),
                    ));
                    sname = Some((parent as int, uspec));
                }
                name_parent = parent;
                name_units = Some(units);
            } else if ty == 0x80 && data_len.is_none() {
                let nonres = b[o + 8];
                if nonres == 0 {
                    let dl = read_le(b, o + 16, 4);
                    data_len = Some(dl);
                    proof {
                        sdata = Some(dl as int);
                    }
                } else {
                    if alen < 56 {
                        return None;
                    }
                    let dl = read_le(b, o + 48, 8);
                    data_len = Some(dl);
                    proof {
                        sdata = Some(dl as int);
                    }
                }
            }
            o = o + alen;
        }
    }
    let name = match name_units {
        Some(u) => Some(utf16_to_string(&u)),
        None => None,
    };
    let rec = FileRecord { record_number, in_use, name, parent: name_parent, data_len };
    proof {
        assert(record_spec(b@, record_number as int) == Some(rec@));
    }
    Some(rec)
}

/// The fixed prefix of a raw-device path.
pub open spec fn device_prefix() -> Seq<char> {
    seq!['\\', '\\', '.', '\\']
}

/// The raw-device path for the volume holding `path`: the fixed prefix
/// followed by the path's first two characters, the drive letter and its
/// separator.  A path shorter than two characters is an invalid
/// designator; that failure abandons the NTFS engine.
pub fn device_path_for(path: &str) -> (r: Option<String>)
    ensures
        (r is Some) <==> path@.len() >= 2,
        r matches Some(d) ==> d@ == device_prefix() + path@.take(2),
{
    let n = path.unicode_len();
    if n < 2 {
        return None;
    }
    let head = path.substring_char(0, 2);
    let mut s = ("\\\\.\\").to_owned();
    s.append(head);
    proof {
        reveal_strlit("\\\\.\\");
        assert(("\\\\.\\")@ =~= device_prefix());
        assert(s@ =~= device_prefix() + path@.take(2));
    }
    Some(s)
}

} // verus!
