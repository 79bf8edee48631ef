//! The binary form of an archive.
//!
//! All integers are big-endian, and positions count from the start of the
//! archive:
//!
//! - the magic bytes `GLUE`;
//! - the number of records, a `u32`, then zero bytes up to offset 16;
//! - each record in turn: its name and a NUL byte, zero bytes up to a
//!   multiple of 8, the declared size as a `u64`, the content, and zero bytes
//!   up to a multiple of 16.
//!
//! When reading, the padding is skipped without being looked at, and bytes
//! after the last record are ignored.

use vstd::prelude::*;

use crate::archive::{records_view, Archive};
use crate::bytes::{
    lemma_u32_be_roundtrip, lemma_u64_be_roundtrip,
    padding, padding_for, push_u32_be, push_u64_be, push_zeros, read_u32_be, read_u64_be,
    u32_be_bytes, u32_from_be, u64_be_bytes, u64_from_be, zeros,
};
use crate::record::{FileRecord, RecordView};

verus! {

/// Why bytes could not be read as an archive.
#[derive(Debug, PartialEq, Eq, Structural)]
pub enum DecodeError {
    /// The bytes do not start with `GLUE`.
    BadMagic,
    /// The bytes end before the archive does.
    UnexpectedEnd,
}

/// Why an archive could not be written.
#[derive(Debug, PartialEq, Eq, Structural)]
pub enum EncodeError {
    /// The number of records does not fit the `u32` that stores it.
    TooManyRecords,
}

/// The bytes `GLUE` that every archive starts with.
pub open spec fn magic() -> Seq<u8> {
    seq![0x47u8, 0x4cu8, 0x55u8, 0x45u8]
}

/// The first 16 bytes of an archive of `count` records.
pub open spec fn header_bytes(count: u32) -> Seq<u8> {
    magic() + u32_be_bytes(count) + zeros(8)
}

/// The name of a record followed by its terminating NUL.
pub open spec fn name_bytes(r: RecordView) -> Seq<u8> {
    r.filename.push(0u8)
}

/// The bytes of a record up to its size field.
pub open spec fn record_head(r: RecordView) -> Seq<u8> {
    name_bytes(r) + zeros(padding(name_bytes(r).len() as int, 8))
}

/// The bytes of a record up to the end of its content.
pub open spec fn record_body(r: RecordView) -> Seq<u8> {
    record_head(r) + u64_be_bytes(r.size) + r.content
}

/// The bytes of one record, as written at an offset that is a multiple of 16.
pub open spec fn record_bytes(r: RecordView) -> Seq<u8> {
    record_body(r) + zeros(padding(record_body(r).len() as int, 16))
}

/// The bytes of a run of records, one after the other.
pub open spec fn records_bytes(rs: Seq<RecordView>) -> Seq<u8>
    decreases rs.len(),
{
    if rs.len() == 0 {
        seq![]
    } else {
        records_bytes(rs.drop_last()) + record_bytes(rs.last())
    }
}

/// The binary form of an archive with the records `rs`.
pub open spec fn encode_spec(rs: Seq<RecordView>) -> Result<Seq<u8>, EncodeError> {
    if rs.len() > u32::MAX {
        Err(EncodeError::TooManyRecords)
    } else {
        Ok(header_bytes(rs.len() as u32) + records_bytes(rs))
    }
}

/// The position of the first NUL byte at or after `pos`, if there is one.
pub open spec fn first_nul(b: Seq<u8>, pos: int) -> Option<int>
    decreases b.len() - pos,
{
    if pos < 0 || pos >= b.len() {
        None
    } else if b[pos] == 0 {
        Some(pos)
    } else {
        first_nul(b, pos + 1)
    }
}

/// Reads one record that starts at `pos`: the record, and the position that
/// follows it once aligned to 16.
#[verifier::opaque]
pub open spec fn parse_record(b: Seq<u8>, pos: int) -> Option<(RecordView, int)> {
    match first_nul(b, pos) {
        None => None,
        Some(z) => {
            let p = z + 1 + padding(z + 1, 8);
            if p + 8 > b.len() {
                None
            } else {
                let size = u64_from_be(b.subrange(p, p + 8));
                let c = p + 8;
                if c + size > b.len() {
                    None
                } else {
                    Some(
                        (
                            RecordView {
                                filename: b.subrange(pos, z),
                                size,
                                content: b.subrange(c, c + size),
                            },
                            c + size + padding(c + size, 16),
                        ),
                    )
                }
            }
        },
    }
}

/// Reads `n` records one after the other, the first at `pos`: the records,
/// and the position that follows the last.
pub open spec fn parse_records(b: Seq<u8>, pos: int, n: nat) -> Option<(Seq<RecordView>, int)>
    decreases n,
{
    if n == 0 {
        Some((seq![], pos))
    } else {
        match parse_records(b, pos, (n - 1) as nat) {
            None => None,
            Some((rs, p)) => match parse_record(b, p) {
                None => None,
                Some((r, q)) => Some((rs.push(r), q)),
            },
        }
    }
}

/// The records of the archive whose binary form starts `b`, or why there is
/// none.
pub open spec fn decode_spec(b: Seq<u8>) -> Result<Seq<RecordView>, DecodeError> {
    if b.len() < 4 {
        Err(DecodeError::UnexpectedEnd)
    } else if b.take(4) != magic() {
        Err(DecodeError::BadMagic)
    } else if b.len() < 8 {
        Err(DecodeError::UnexpectedEnd)
    } else {
        match parse_records(b, 16, u32_from_be(b.subrange(4, 8)) as nat) {
            Some((rs, _)) => Ok(rs),
            None => Err(DecodeError::UnexpectedEnd),
        }
    }
}

/// A record that its binary form describes exactly: its name holds no NUL
/// and its declared size is the length of its content.
pub open spec fn well_formed_record(r: RecordView) -> bool {
    &&& r.size == r.content.len()
    &&& !r.filename.contains(0u8)
}

/// Once a run of records fails to read, reading more of them fails too.
proof fn lemma_parse_records_failure_persists(b: Seq<u8>, pos: int, i: nat, n: nat)
    requires
        i <= n,
        parse_records(b, pos, i) is None,
    ensures
        parse_records(b, pos, n) is None,
    decreases n,
{
    if n > i {
        lemma_parse_records_failure_persists(b, pos, i, (n - 1) as nat);
    }
}

/// A record that starts at or past the end of the bytes cannot be read.
proof fn lemma_parse_record_past_end(b: Seq<u8>, pos: int)
    requires
        pos >= b.len(),
    ensures
        parse_record(b, pos) is None,
{
    reveal(parse_record);
}

/// Appends the binary form of `r` to `out`, which ends at a multiple of 16.
fn push_record(out: &mut Vec<u8>, r: &FileRecord)
    requires
        old(out)@.len() % 16 == 0,
    ensures
        final(out)@ == old(out)@ + record_bytes(r@),
{
    let ghost start = out@;
    let ghost rv = r@;
    let name = r.filename.as_slice();
    let mut i: usize = 0;
    while i < name.len()
        invariant
            i <= name@.len(),
            name@ == rv.filename,
            out@ == start + rv.filename.take(i as int),
        decreases name@.len() - i,
    {
        out.push(name[i]);
        i = i + 1;
        assert(out@ =~= start + rv.filename.take(i as int));
    }
    out.push(0u8);
    assert(out@ =~= start + name_bytes(rv));
    let pad = padding_for(out.len(), 8);
    assert(pad == padding(name_bytes(rv).len() as int, 8)) by {
        lemma_padding_shift(start.len() as int, name_bytes(rv).len() as int, 8);
    }
    push_zeros(out, pad);
    assert(out@ =~= start + record_head(rv));
    push_u64_be(out, r.size);
    let content = r.content.as_slice();
    let mut j: usize = 0;
    while j < content.len()
        invariant
            j <= content@.len(),
            content@ == rv.content,
            out@ == start + record_head(rv) + u64_be_bytes(rv.size) + rv.content.take(j as int),
        decreases content@.len() - j,
    {
        out.push(content[j]);
        j = j + 1;
        assert(out@ =~= start + record_head(rv) + u64_be_bytes(rv.size) + rv.content.take(
            j as int,
        ));
    }
    assert(out@ =~= start + record_body(rv));
    let pad = padding_for(out.len(), 16);
    assert(pad == padding(record_body(rv).len() as int, 16)) by {
        lemma_padding_shift(start.len() as int, record_body(rv).len() as int, 16);
    }
    push_zeros(out, pad);
    assert(out@ =~= start + record_bytes(rv));
}

/// Padding to 8 or 16 does not change when everything moves by a multiple of 16.
proof fn lemma_padding_shift(a: int, x: int, m: int)
    requires
        a >= 0,
        x >= 0,
        a % 16 == 0,
        m == 8 || m == 16,
    ensures
        padding(a + x, m) == padding(x, m),
{
    assert((a + x) % m == x % m) by (nonlinear_arith)
        requires
            a >= 0,
            x >= 0,
            a % 16 == 0,
            m == 8 || m == 16,
    ;
}

impl Archive {
    /// The binary form of the archive.
    ///
    /// # Errors
    /// An archive of more records than a `u32` counts cannot be written:
    /// [`EncodeError::TooManyRecords`].
    pub fn encode(&self) -> (bytes: Result<Vec<u8>, EncodeError>)
        ensures
            bytes matches Ok(b) ==> encode_spec(self@) == Ok::<Seq<u8>, EncodeError>(b@),
            bytes matches Err(e) ==> encode_spec(self@) == Err::<Seq<u8>, EncodeError>(e),
    {
        let count = self.records.len();
        if count > 0xffff_ffffusize {
            return Err(EncodeError::TooManyRecords);
        }
        let mut out: Vec<u8> = Vec::new();
        out.push(0x47u8);
        out.push(0x4cu8);
        out.push(0x55u8);
        out.push(0x45u8);
        push_u32_be(&mut out, count as u32);
        let pad = padding_for(out.len(), 16);
        push_zeros(&mut out, pad);
        let ghost header = header_bytes(count as u32);
        assert(out@ =~= header);
        let mut i: usize = 0;
        while i < count
            invariant
                count == self.records@.len(),
                i <= count,
                out@ == header + records_bytes(records_view(self.records@).take(i as int)),
                out@.len() % 16 == 0,
            decreases count - i,
        {
            let ghost before = out@;
            push_record(&mut out, &self.records[i]);
            let ghost rs = records_view(self.records@);
            assert(rs.take(i + 1).drop_last() =~= rs.take(i as int));
            assert(rs.take(i + 1).last() == self.records@[i as int]@);
            i = i + 1;
            proof {
                lemma_record_bytes_aligned(self.records@[i - 1]@);
            }
        }
        assert(records_view(self.records@).take(count as int) =~= records_view(self.records@));
        Ok(out)
    }
}

/// Every record takes a multiple of 16 bytes.
pub proof fn lemma_record_bytes_aligned(r: RecordView)
    ensures
        record_bytes(r).len() % 16 == 0,
{
    let n = record_body(r).len() as int;
    assert((n + padding(n, 16)) % 16 == 0);
}

/// `first_nul` finds the first NUL of a run of non-NUL bytes.
proof fn lemma_first_nul_at(b: Seq<u8>, pos: int, z: int)
    requires
        0 <= pos <= z < b.len(),
        b[z] == 0,
        forall|k: int| pos <= k < z ==> b[k] != 0,
    ensures
        first_nul(b, pos) == Some(z),
    decreases z - pos,
{
    if pos < z {
        lemma_first_nul_at(b, pos + 1, z);
    }
}

/// `first_nul` finds nothing in a run of non-NUL bytes that reaches the end.
proof fn lemma_first_nul_none(b: Seq<u8>, pos: int)
    requires
        0 <= pos <= b.len(),
        forall|k: int| pos <= k < b.len() ==> b[k] != 0,
    ensures
        first_nul(b, pos) is None,
    decreases b.len() - pos,
{
    if pos < b.len() {
        lemma_first_nul_none(b, pos + 1);
    }
}

/// Reads the record that starts at `pos`: the record and the position where
/// its content ends.
fn read_record(bytes: &[u8], pos: usize) -> (res: Option<(FileRecord, usize)>)
    requires
        pos <= bytes@.len(),
    ensures
        parse_record(bytes@, pos as int) is None <==> res is None,
        res matches Some((rec, end)) ==> {
            &&& pos <= end <= bytes@.len()
            &&& parse_record(bytes@, pos as int) == Some(
                (rec@, end + padding(end as int, 16)),
            )
        },
{
    reveal(parse_record);
    let len = bytes.len();
    let mut z: usize = pos;
    while z < len && bytes[z] != 0
        invariant
            pos <= z <= len,
            len == bytes@.len(),
            forall|k: int| pos <= k < z ==> bytes@[k] != 0,
        decreases len - z,
    {
        z = z + 1;
    }
    if z == len {
        proof {
            lemma_first_nul_none(bytes@, pos as int);
        }
        return None;
    }
    proof {
        lemma_first_nul_at(bytes@, pos as int, z as int);
    }
    let name_end = z + 1;
    let pad = padding_for(name_end, 8);
    if pad > len - name_end || len - name_end - pad < 8 {
        return None;
    }
    let p = name_end + pad;
    let size = read_u64_be(bytes, p);
    let c = p + 8;
    if size > (len - c) as u64 {
        return None;
    }
    let size_bytes = size as usize;
    let end = c + size_bytes;
    let filename = vstd::slice::slice_to_vec(&bytes[pos..z]);
    let content = vstd::slice::slice_to_vec(&bytes[c..end]);
    let rec = FileRecord { filename, size, content };
    Some((rec, end))
}

impl Archive {
    /// Reads an archive from the start of `bytes`. Bytes after the last
    /// record are ignored.
    ///
    /// # Errors
    /// [`DecodeError::BadMagic`] where the bytes do not start with `GLUE`,
    /// [`DecodeError::UnexpectedEnd`] where they end before the archive does.
    pub fn decode(bytes: &[u8]) -> (archive: Result<Archive, DecodeError>)
        ensures
            archive matches Ok(a) ==> decode_spec(bytes@) == Ok::<Seq<RecordView>, DecodeError>(a@),
            archive matches Err(e) ==> decode_spec(bytes@) == Err::<Seq<RecordView>, DecodeError>(e),
    {
        let len = bytes.len();
        if len < 4 {
            return Err(DecodeError::UnexpectedEnd);
        }
        if bytes[0] != 0x47u8 || bytes[1] != 0x4cu8 || bytes[2] != 0x55u8 || bytes[3] != 0x45u8 {
            assert(bytes@.take(4) != magic()) by {
                if bytes@.take(4) == magic() {
                    assert(bytes@.take(4)[0] == bytes@[0]);
                    assert(bytes@.take(4)[1] == bytes@[1]);
                    assert(bytes@.take(4)[2] == bytes@[2]);
                    assert(bytes@.take(4)[3] == bytes@[3]);
                }
            }
            return Err(DecodeError::BadMagic);
        }
        assert(bytes@.take(4) =~= magic());
        if len < 8 {
            return Err(DecodeError::UnexpectedEnd);
        }
        let count = read_u32_be(bytes, 4) as usize;
        let ghost n = u32_from_be(bytes@.subrange(4, 8)) as nat;
        let mut records: Vec<FileRecord> = Vec::new();
        let mut end: usize = 8;
        let mut i: usize = 0;
        assert(8 + padding(8, 16) == 16);
        while i < count
            invariant
                len == bytes@.len(),
                bytes@.take(4) == magic(),
                n == u32_from_be(bytes@.subrange(4, 8)) as nat,
                count == n,
                i <= count,
                8 <= end <= len,
                parse_records(bytes@, 16, i as nat) == Some(
                    (records_view(records@), end + padding(end as int, 16)),
                ),
            decreases count - i,
        {
            let pad = padding_for(end, 16);
            if pad >= len - end {
                proof {
                    lemma_parse_record_past_end(bytes@, end + pad);
                    assert(parse_records(bytes@, 16, (i + 1) as nat) is None);
                    lemma_parse_records_failure_persists(bytes@, 16, (i + 1) as nat, n);
                }
                return Err(DecodeError::UnexpectedEnd);
            }
            match read_record(bytes, end + pad) {
                None => {
                    proof {
                        assert(parse_records(bytes@, 16, (i + 1) as nat) is None);
                        lemma_parse_records_failure_persists(bytes@, 16, (i + 1) as nat, n);
                    }
                    return Err(DecodeError::UnexpectedEnd);
                },
                Some((rec, next_end)) => {
                    let ghost before = records_view(records@);
                    records.push(rec);
                    assert(records_view(records@) =~= before.push(rec@));
                    end = next_end;
                    i = i + 1;
                },
            }
        }
        Ok(Archive { records })
    }
}

/// The records of a list all satisfy [`well_formed_record`].
pub open spec fn all_well_formed(rs: Seq<RecordView>) -> bool {
    forall|i: int| 0 <= i < rs.len() ==> well_formed_record(#[trigger] rs[i])
}

/// A run of records takes a multiple of 16 bytes.
pub proof fn lemma_records_bytes_aligned(rs: Seq<RecordView>)
    ensures
        records_bytes(rs).len() % 16 == 0,
    decreases rs.len(),
{
    if rs.len() > 0 {
        lemma_records_bytes_aligned(rs.drop_last());
        lemma_record_bytes_aligned(rs.last());
    }
}

/// A well-formed record written at a multiple of 16 reads back as itself,
/// whatever precedes and follows it.
proof fn lemma_parse_record_bytes(pre: Seq<u8>, r: RecordView, post: Seq<u8>)
    requires
        pre.len() % 16 == 0,
        well_formed_record(r),
    ensures
        parse_record(pre + record_bytes(r) + post, pre.len() as int) == Some(
            (r, (pre.len() + record_bytes(r).len()) as int),
        ),
{
    reveal(parse_record);
    let rb = record_bytes(r);
    let b = pre + rb + post;
    let s = pre.len() as int;
    let nl = r.filename.len() as int;
    let z = s + nl;
    let head = record_head(r);
    let body = record_body(r);
    assert(rb.subrange(0, body.len() as int) =~= body);
    assert(body.subrange(0, head.len() as int) =~= head);
    assert(head.subrange(0, nl + 1) =~= name_bytes(r));
    assert forall|k: int| s <= k < z implies b[k] != 0 by {
        assert(b[k] == rb[k - s]);
        assert(rb[k - s] == body[k - s]);
        assert(body[k - s] == head[k - s]);
        assert(head[k - s] == name_bytes(r)[k - s]);
        assert(name_bytes(r)[k - s] == r.filename[k - s]);
        if r.filename[k - s] == 0 {
            assert(r.filename.contains(0u8));
        }
    }
    assert(b[z] == rb[nl]);
    assert(rb[nl] == body[nl]);
    assert(body[nl] == head[nl]);
    assert(head[nl] == name_bytes(r)[nl]);
    lemma_first_nul_at(b, s, z);
    lemma_padding_shift(s, nl + 1, 8);
    let p = z + 1 + padding(z + 1, 8);
    assert(p == s + head.len());
    assert(b.subrange(s, z) =~= r.filename);
    assert(b.subrange(p, p + 8) =~= u64_be_bytes(r.size));
    lemma_u64_be_roundtrip(r.size);
    let c = p + 8;
    assert(b.subrange(c, c + r.size) =~= r.content);
    lemma_padding_shift(s, body.len() as int, 16);
}

/// Well-formed records written one after the other behind a 16-byte header
/// read back as themselves.
proof fn lemma_parse_records_bytes(h: Seq<u8>, rs: Seq<RecordView>, post: Seq<u8>)
    requires
        h.len() == 16,
        all_well_formed(rs),
    ensures
        parse_records(h + records_bytes(rs) + post, 16, rs.len()) == Some(
            (rs, 16 + records_bytes(rs).len() as int),
        ),
    decreases rs.len(),
{
    if rs.len() == 0 {
        assert(rs =~= seq![]);
    } else {
        let init = rs.drop_last();
        let last = rs.last();
        let n = rs.len();
        let b = h + records_bytes(rs) + post;
        let front = h + records_bytes(init);
        let p = 16 + records_bytes(init).len() as int;
        assert(all_well_formed(init)) by {
            assert forall|i: int| 0 <= i < init.len() implies well_formed_record(
                #[trigger] init[i],
            ) by {
                assert(init[i] == rs[i]);
            }
        }
        assert(well_formed_record(last)) by {
            assert(well_formed_record(rs[n - 1]));
        }
        assert(parse_records(b, 16, (n - 1) as nat) == Some((init, p))) by {
            lemma_parse_records_bytes(h, init, record_bytes(last) + post);
            assert(h + records_bytes(init) + (record_bytes(last) + post) =~= b);
        }
        assert(parse_record(b, p) == Some((last, p + record_bytes(last).len()))) by {
            lemma_records_bytes_aligned(init);
            lemma_parse_record_bytes(front, last, post);
            assert(front + record_bytes(last) + post =~= b);
        }
        assert(init.push(last) =~= rs);
        assert(records_bytes(rs).len() == records_bytes(init).len() + record_bytes(last).len());
    }
}

/// Writing an archive of well-formed records and reading it back gives the
/// same records.
pub proof fn theorem_decode_encode(rs: Seq<RecordView>)
    requires
        rs.len() <= u32::MAX,
        all_well_formed(rs),
    ensures
        encode_spec(rs) is Ok,
        decode_spec(encode_spec(rs)->Ok_0) == Ok::<Seq<RecordView>, DecodeError>(rs),
{
    let h = header_bytes(rs.len() as u32);
    let b = h + records_bytes(rs);
    assert(b.take(4) =~= magic());
    assert(b.subrange(4, 8) =~= u32_be_bytes(rs.len() as u32));
    lemma_u32_be_roundtrip(rs.len() as u32);
    lemma_parse_records_bytes(h, rs, seq![]);
    assert(h + records_bytes(rs) + seq![] =~= b);
}

/// What `first_nul` finds: a NUL, with no NUL before it from `pos` on.
proof fn lemma_first_nul_found(b: Seq<u8>, pos: int)
    requires
        first_nul(b, pos) is Some,
    ensures
        pos <= first_nul(b, pos)->0 < b.len(),
        b[first_nul(b, pos)->0] == 0,
        forall|k: int| pos <= k < first_nul(b, pos)->0 ==> b[k] != 0,
    decreases b.len() - pos,
{
    if b[pos] != 0 {
        lemma_first_nul_found(b, pos + 1);
    }
}

/// Bytes appended after a NUL do not change where the first NUL is.
proof fn lemma_first_nul_extend(b: Seq<u8>, t: Seq<u8>, pos: int)
    requires
        first_nul(b, pos) is Some,
    ensures
        first_nul(b + t, pos) == first_nul(b, pos),
    decreases b.len() - pos,
{
    if b[pos] != 0 {
        lemma_first_nul_extend(b, t, pos + 1);
    }
}

/// A record that reads from `b` reads the same from `b` followed by more
/// bytes, and is well-formed.
proof fn lemma_parse_record_extend(b: Seq<u8>, t: Seq<u8>, pos: int)
    requires
        parse_record(b, pos) is Some,
    ensures
        parse_record(b + t, pos) == parse_record(b, pos),
        well_formed_record((parse_record(b, pos)->0).0),
{
    reveal(parse_record);
    lemma_first_nul_extend(b, t, pos);
    lemma_first_nul_found(b, pos);
    let z = first_nul(b, pos)->0;
    let p = z + 1 + padding(z + 1, 8);
    let bt = b + t;
    assert(bt.subrange(p, p + 8) =~= b.subrange(p, p + 8));
    let size = u64_from_be(b.subrange(p, p + 8));
    let c = p + 8;
    assert(bt.subrange(c, c + size) =~= b.subrange(c, c + size));
    assert(bt.subrange(pos, z) =~= b.subrange(pos, z));
    let name = b.subrange(pos, z);
    if name.contains(0u8) {
        let k = choose|k: int| 0 <= k < name.len() && name[k] == 0u8;
        assert(b[pos + k] == 0);
    }
}

/// Records that read from `b` read the same from `b` followed by more bytes,
/// and are all well-formed.
proof fn lemma_parse_records_extend(b: Seq<u8>, t: Seq<u8>, pos: int, n: nat)
    requires
        parse_records(b, pos, n) is Some,
    ensures
        parse_records(b + t, pos, n) == parse_records(b, pos, n),
        all_well_formed((parse_records(b, pos, n)->0).0),
    decreases n,
{
    if n > 0 {
        lemma_parse_records_extend(b, t, pos, (n - 1) as nat);
        let (rs, p) = parse_records(b, pos, (n - 1) as nat)->0;
        lemma_parse_record_extend(b, t, p);
        let r = (parse_record(b, p)->0).0;
        assert forall|i: int| 0 <= i < rs.push(r).len() implies well_formed_record(
            #[trigger] rs.push(r)[i],
        ) by {
            if i < rs.len() {
                assert(rs.push(r)[i] == rs[i]);
            }
        }
    }
}

/// Every record read from an archive is well-formed, and bytes that follow
/// an archive do not change what is read.
pub proof fn theorem_decode_prefix(b: Seq<u8>, t: Seq<u8>)
    requires
        decode_spec(b) is Ok,
    ensures
        all_well_formed(decode_spec(b)->Ok_0),
        decode_spec(b + t) == decode_spec(b),
{
    assert((b + t).take(4) =~= b.take(4));
    assert((b + t).subrange(4, 8) =~= b.subrange(4, 8));
    lemma_parse_records_extend(b, t, 16, u32_from_be(b.subrange(4, 8)) as nat);
}

/// Reading an archive, writing it again and reading that gives the same
/// records.
pub proof fn theorem_encode_decoded(b: Seq<u8>)
    requires
        decode_spec(b) is Ok,
    ensures
        encode_spec(decode_spec(b)->Ok_0) is Ok,
        decode_spec(encode_spec(decode_spec(b)->Ok_0)->Ok_0) == decode_spec(b),
{
    let rs = decode_spec(b)->Ok_0;
    theorem_decode_prefix(b, seq![]);
    lemma_parse_records_len(b, 16, u32_from_be(b.subrange(4, 8)) as nat);
    theorem_decode_encode(rs);
}

/// Reading `n` records gives `n` records.
proof fn lemma_parse_records_len(b: Seq<u8>, pos: int, n: nat)
    requires
        parse_records(b, pos, n) is Some,
    ensures
        (parse_records(b, pos, n)->0).0.len() == n,
    decreases n,
{
    if n > 0 {
        lemma_parse_records_len(b, pos, (n - 1) as nat);
    }
}

/// The binary form of every archive is a whole number of 16-byte blocks.
pub proof fn theorem_encoded_len_aligned(rs: Seq<RecordView>)
    requires
        encode_spec(rs) is Ok,
    ensures
        encode_spec(rs)->Ok_0.len() % 16 == 0,
{
    lemma_records_bytes_aligned(rs);
}

} // verus!
