//! Little-endian numbers in a byte stream, and reading them one after the other.
use vstd::prelude::*;
use vstd::slice::slice_subrange;

verus! {

/// The components of a vector.
pub const DIM: usize = 14;

/// The stream ended before what was to be read.
pub struct Ended;

/// The number that the four bytes at `p` make.
pub open spec fn u32_at(data: Seq<u8>, p: int) -> u32 {
    (data[p] + 0x100 * data[p + 1] + 0x1_0000 * data[p + 2] + 0x100_0000 * data[p + 3]) as u32
}

/// The number that the two bytes at `p` make, in two's complement.
pub open spec fn i16_at(data: Seq<u8>, p: int) -> i16 {
    let v = data[p] + 0x100 * data[p + 1];
    if v < 0x8000 {
        v as i16
    } else {
        (v - 0x1_0000) as i16
    }
}

/// The `n` numbers of four bytes from `p` on.
pub open spec fn u32s(data: Seq<u8>, p: int, n: nat) -> Seq<u32> {
    Seq::new(n, |i: int| u32_at(data, p + 4 * i))
}

/// The `n` numbers of two bytes from `p` on.
pub open spec fn i16s(data: Seq<u8>, p: int, n: nat) -> Seq<i16> {
    Seq::new(n, |i: int| i16_at(data, p + 2 * i))
}

/// The `n` rows of numbers of four bytes from `p` on.
pub open spec fn u32_rows(data: Seq<u8>, p: int, n: nat) -> Seq<Seq<u32>> {
    Seq::new(n, |i: int| u32s(data, p + 56 * i, DIM as nat))
}

/// The `n` rows of numbers of two bytes from `p` on.
pub open spec fn i16_rows(data: Seq<u8>, p: int, n: nat) -> Seq<Seq<i16>> {
    Seq::new(n, |i: int| i16s(data, p + 28 * i, DIM as nat))
}

/// The contents of rows.
pub open spec fn rows_of<T>(rows: Seq<[T; 14]>) -> Seq<Seq<T>> {
    Seq::new(rows.len(), |i: int| rows[i]@)
}

/// Where a reader of numbers of `size` bytes ends up that began at `from` and found too few:
/// behind the last whole number, or where it began if that is behind the data.
pub open spec fn behind_whole(len: int, from: int, size: int) -> int {
    if from <= len {
        from + size * ((len - from) / size)
    } else {
        from
    }
}

/// The next `n` bytes.
pub fn read_array<'a>(data: &'a [u8], cursor: &mut usize, n: usize) -> (r: Result<&'a [u8], Ended>)
    ensures
        r is Ok <==> *old(cursor) + n <= data.len(),
        r matches Ok(bytes) ==> *final(cursor) == *old(cursor) + n && bytes@ == data@.subrange(
            *old(cursor) as int,
            *old(cursor) + n,
        ),
        r is Err ==> *final(cursor) == *old(cursor),
{
    let start = *cursor;
    if start > data.len() || data.len() - start < n {
        return Err(Ended);
    }
    *cursor = start + n;
    Ok(slice_subrange(data, start, start + n))
}

/// The next number of four bytes.
pub fn read_u32(data: &[u8], cursor: &mut usize) -> (r: Result<u32, Ended>)
    ensures
        r is Ok <==> *old(cursor) + 4 <= data.len(),
        r matches Ok(v) ==> *final(cursor) == *old(cursor) + 4 && v == u32_at(
            data@,
            *old(cursor) as int,
        ),
        r is Err ==> *final(cursor) == *old(cursor),
{
    let b = match read_array(data, cursor, 4) {
        Ok(b) => b,
        Err(e) => return Err(e),
    };
    Ok(b[0] as u32 + 0x100 * b[1] as u32 + 0x1_0000 * b[2] as u32 + 0x100_0000 * b[3] as u32)
}

/// The next number of two bytes.
pub fn read_i16(data: &[u8], cursor: &mut usize) -> (r: Result<i16, Ended>)
    ensures
        r is Ok <==> *old(cursor) + 2 <= data.len(),
        r matches Ok(v) ==> *final(cursor) == *old(cursor) + 2 && v == i16_at(
            data@,
            *old(cursor) as int,
        ),
        r is Err ==> *final(cursor) == *old(cursor),
{
    let b = match read_array(data, cursor, 2) {
        Ok(b) => b,
        Err(e) => return Err(e),
    };
    let v = b[0] as i32 + 0x100 * b[1] as i32;
    if v < 0x8000 {
        Ok(v as i16)
    } else {
        Ok((v - 0x1_0000) as i16)
    }
}

/// The next `len` numbers of four bytes.
pub fn read_u32_vec(data: &[u8], cursor: &mut usize, len: usize) -> (r: Result<Vec<u32>, Ended>)
    ensures
        r is Ok <==> len == 0 || *old(cursor) + 4 * len <= data.len(),
        r matches Ok(v) ==> *final(cursor) == *old(cursor) + 4 * len && v@ == u32s(
            data@,
            *old(cursor) as int,
            len as nat,
        ),
        r is Err ==> *final(cursor) == behind_whole(
            data@.len() as int,
            *old(cursor) as int,
            4,
        ),
{
    let mut out: Vec<u32> = Vec::new();
    let mut i: usize = 0;
    while i < len
        invariant
            i <= len,
            out.len() == i,
            *cursor == *old(cursor) + 4 * i,
            i > 0 ==> *cursor <= data.len(),
            forall|j: int| 0 <= j < i ==> out@[j] == u32_at(data@, *old(cursor) + 4 * j),
        decreases len - i,
    {
        match read_u32(data, cursor) {
            Ok(v) => out.push(v),
            Err(e) => return Err(e),
        }
        i += 1;
    }
    assert(out@ =~= u32s(data@, *old(cursor) as int, len as nat));
    Ok(out)
}

/// The next `len` numbers of two bytes.
pub fn read_i16_vec(data: &[u8], cursor: &mut usize, len: usize) -> (r: Result<Vec<i16>, Ended>)
    ensures
        r is Ok <==> len == 0 || *old(cursor) + 2 * len <= data.len(),
        r matches Ok(v) ==> *final(cursor) == *old(cursor) + 2 * len && v@ == i16s(
            data@,
            *old(cursor) as int,
            len as nat,
        ),
        r is Err ==> *final(cursor) == behind_whole(
            data@.len() as int,
            *old(cursor) as int,
            2,
        ),
{
    let mut out: Vec<i16> = Vec::new();
    let mut i: usize = 0;
    while i < len
        invariant
            i <= len,
            out.len() == i,
            *cursor == *old(cursor) + 2 * i,
            i > 0 ==> *cursor <= data.len(),
            forall|j: int| 0 <= j < i ==> out@[j] == i16_at(data@, *old(cursor) + 2 * j),
        decreases len - i,
    {
        match read_i16(data, cursor) {
            Ok(v) => out.push(v),
            Err(e) => return Err(e),
        }
        i += 1;
    }
    assert(out@ =~= i16s(data@, *old(cursor) as int, len as nat));
    Ok(out)
}

/// The next `len` bytes.
pub fn read_u8_vec(data: &[u8], cursor: &mut usize, len: usize) -> (r: Result<Vec<u8>, Ended>)
    ensures
        r is Ok <==> *old(cursor) + len <= data.len(),
        r matches Ok(v) ==> *final(cursor) == *old(cursor) + len && v@ == data@.subrange(
            *old(cursor) as int,
            *old(cursor) + len,
        ),
        r is Err ==> *final(cursor) == *old(cursor),
{
    match read_array(data, cursor, len) {
        Ok(b) => Ok(vstd::slice::slice_to_vec(b)),
        Err(e) => Err(e),
    }
}

/// The next row of numbers of four bytes.
fn read_u32_row(data: &[u8], cursor: &mut usize) -> (r: Result<[u32; 14], Ended>)
    ensures
        r is Ok <==> *old(cursor) + 56 <= data.len(),
        r matches Ok(row) ==> *final(cursor) == *old(cursor) + 56 && row@ == u32s(
            data@,
            *old(cursor) as int,
            DIM as nat,
        ),
        r is Err ==> *final(cursor) == behind_whole(
            data@.len() as int,
            *old(cursor) as int,
            4,
        ),
{
    let mut row: [u32; 14] = [0; 14];
    let mut i: usize = 0;
    while i < DIM
        invariant
            i <= DIM,
            *cursor == *old(cursor) + 4 * i,
            i > 0 ==> *cursor <= data.len(),
            forall|j: int| 0 <= j < i ==> row@[j] == u32_at(data@, *old(cursor) + 4 * j),
        decreases DIM - i,
    {
        match read_u32(data, cursor) {
            Ok(v) => {
                row[i] = v;
            },
            Err(e) => return Err(e),
        }
        i += 1;
    }
    assert(row@ =~= u32s(data@, *old(cursor) as int, DIM as nat));
    Ok(row)
}

/// The next row of numbers of two bytes.
fn read_i16_row(data: &[u8], cursor: &mut usize) -> (r: Result<[i16; 14], Ended>)
    ensures
        r is Ok <==> *old(cursor) + 28 <= data.len(),
        r matches Ok(row) ==> *final(cursor) == *old(cursor) + 28 && row@ == i16s(
            data@,
            *old(cursor) as int,
            DIM as nat,
        ),
        r is Err ==> *final(cursor) == behind_whole(
            data@.len() as int,
            *old(cursor) as int,
            2,
        ),
{
    let mut row: [i16; 14] = [0; 14];
    let mut i: usize = 0;
    while i < DIM
        invariant
            i <= DIM,
            *cursor == *old(cursor) + 2 * i,
            i > 0 ==> *cursor <= data.len(),
            forall|j: int| 0 <= j < i ==> row@[j] == i16_at(data@, *old(cursor) + 2 * j),
        decreases DIM - i,
    {
        match read_i16(data, cursor) {
            Ok(v) => {
                row[i] = v;
            },
            Err(e) => return Err(e),
        }
        i += 1;
    }
    assert(row@ =~= i16s(data@, *old(cursor) as int, DIM as nat));
    Ok(row)
}

/// The next `rows` rows of numbers of four bytes.
pub fn read_u32_rows(data: &[u8], cursor: &mut usize, rows: usize) -> (r: Result<
    Vec<[u32; 14]>,
    Ended,
>)
    ensures
        r is Ok <==> rows == 0 || *old(cursor) + 56 * rows <= data.len(),
        r matches Ok(v) ==> *final(cursor) == *old(cursor) + 56 * rows && rows_of(v@) == u32_rows(
            data@,
            *old(cursor) as int,
            rows as nat,
        ),
        r is Err ==> *final(cursor) == behind_whole(
            data@.len() as int,
            *old(cursor) as int,
            4,
        ),
{
    let mut out: Vec<[u32; 14]> = Vec::new();
    let mut i: usize = 0;
    while i < rows
        invariant
            i <= rows,
            out.len() == i,
            *cursor == *old(cursor) + 56 * i,
            i > 0 ==> *cursor <= data.len(),
            forall|j: int|
                0 <= j < i ==> (#[trigger] out@[j])@ == u32s(
                    data@,
                    *old(cursor) + 56 * j,
                    DIM as nat,
                ),
        decreases rows - i,
    {
        match read_u32_row(data, cursor) {
            Ok(row) => out.push(row),
            Err(e) => return Err(e),
        }
        i += 1;
    }
    assert(rows_of(out@) =~= u32_rows(data@, *old(cursor) as int, rows as nat));
    Ok(out)
}

/// The next `rows` rows of numbers of two bytes.
pub fn read_i16_rows(data: &[u8], cursor: &mut usize, rows: usize) -> (r: Result<
    Vec<[i16; 14]>,
    Ended,
>)
    ensures
        r is Ok <==> rows == 0 || *old(cursor) + 28 * rows <= data.len(),
        r matches Ok(v) ==> *final(cursor) == *old(cursor) + 28 * rows && rows_of(v@) == i16_rows(
            data@,
            *old(cursor) as int,
            rows as nat,
        ),
        r is Err ==> *final(cursor) == behind_whole(
            data@.len() as int,
            *old(cursor) as int,
            2,
        ),
{
    let mut out: Vec<[i16; 14]> = Vec::new();
    let mut i: usize = 0;
    while i < rows
        invariant
            i <= rows,
            out.len() == i,
            *cursor == *old(cursor) + 28 * i,
            i > 0 ==> *cursor <= data.len(),
            forall|j: int|
                0 <= j < i ==> (#[trigger] out@[j])@ == i16s(
                    data@,
                    *old(cursor) + 28 * j,
                    DIM as nat,
                ),
        decreases rows - i,
    {
        match read_i16_row(data, cursor) {
            Ok(row) => out.push(row),
            Err(e) => return Err(e),
        }
        i += 1;
    }
    assert(rows_of(out@) =~= i16_rows(data@, *old(cursor) as int, rows as nat));
    Ok(out)
}

/// Byte `j` of a number of four bytes.
pub open spec fn u32_byte(v: u32, j: int) -> u8 {
    (if j == 0 {
        v as int % 0x100
    } else if j == 1 {
        v as int / 0x100 % 0x100
    } else if j == 2 {
        v as int / 0x1_0000 % 0x100
    } else {
        v as int / 0x100_0000
    }) as u8
}

/// Byte `j` of a number of two bytes, in two's complement.
pub open spec fn i16_byte(v: i16, j: int) -> u8 {
    let u = if v < 0 {
        v + 0x1_0000
    } else {
        v as int
    };
    (if j == 0 {
        u % 0x100
    } else {
        u / 0x100
    }) as u8
}

/// Numbers of four bytes, one after the other.
pub open spec fn u32_stream(s: Seq<u32>) -> Seq<u8> {
    Seq::new(4 * s.len(), |p: int| u32_byte(s[p / 4], p % 4))
}

/// Numbers of two bytes, one after the other.
pub open spec fn i16_stream(s: Seq<i16>) -> Seq<u8> {
    Seq::new(2 * s.len(), |p: int| i16_byte(s[p / 2], p % 2))
}

/// A number that was written is read back.
pub proof fn lemma_u32_back(data: Seq<u8>, p: int, v: u32)
    requires
        forall|j: int| 0 <= j < 4 ==> #[trigger] data[p + j] == u32_byte(v, j),
    ensures
        u32_at(data, p) == v,
{
    assert(data[p + 0] == u32_byte(v, 0));
    assert(data[p + 1] == u32_byte(v, 1));
    assert(data[p + 2] == u32_byte(v, 2));
    assert(data[p + 3] == u32_byte(v, 3));
}

/// A number that was written is read back.
pub proof fn lemma_i16_back(data: Seq<u8>, p: int, v: i16)
    requires
        forall|j: int| 0 <= j < 2 ==> #[trigger] data[p + j] == i16_byte(v, j),
    ensures
        i16_at(data, p) == v,
{
    assert(data[p + 0] == i16_byte(v, 0));
    assert(data[p + 1] == i16_byte(v, 1));
}

/// Numbers that were written are read back.
pub proof fn law_u32s_are_read_back(data: Seq<u8>, p: int, s: Seq<u32>)
    requires
        0 <= p,
        p + 4 * s.len() <= data.len(),
        data.subrange(p, p + 4 * s.len()) == u32_stream(s),
    ensures
        u32s(data, p, s.len()) == s,
{
    assert forall|i: int| 0 <= i < s.len() implies u32_at(data, p + 4 * i) == s[i] by {
        assert forall|j: int| 0 <= j < 4 implies #[trigger] data[p + 4 * i + j] == u32_byte(
            s[i],
            j,
        ) by {
            assert(data[p + (4 * i + j)] == u32_stream(s)[4 * i + j]);
            assert((4 * i + j) / 4 == i && (4 * i + j) % 4 == j);
        }
        lemma_u32_back(data, p + 4 * i, s[i]);
    }
    assert(u32s(data, p, s.len()) =~= s);
}

/// Numbers that were written are read back.
pub proof fn law_i16s_are_read_back(data: Seq<u8>, p: int, s: Seq<i16>)
    requires
        0 <= p,
        p + 2 * s.len() <= data.len(),
        data.subrange(p, p + 2 * s.len()) == i16_stream(s),
    ensures
        i16s(data, p, s.len()) == s,
{
    assert forall|i: int| 0 <= i < s.len() implies i16_at(data, p + 2 * i) == s[i] by {
        assert forall|j: int| 0 <= j < 2 implies #[trigger] data[p + 2 * i + j] == i16_byte(
            s[i],
            j,
        ) by {
            assert(data[p + (2 * i + j)] == i16_stream(s)[2 * i + j]);
            assert((2 * i + j) / 2 == i && (2 * i + j) % 2 == j);
        }
        lemma_i16_back(data, p + 2 * i, s[i]);
    }
    assert(i16s(data, p, s.len()) =~= s);
}

pub proof fn lemma_u32_stream_push(s: Seq<u32>, v: u32)
    ensures
        u32_stream(s.push(v)) == u32_stream(s) + u32_stream(seq![v]),
{
    assert(u32_stream(s.push(v)) =~= u32_stream(s) + u32_stream(seq![v]));
}

pub proof fn lemma_i16_stream_push(s: Seq<i16>, v: i16)
    ensures
        i16_stream(s.push(v)) == i16_stream(s) + i16_stream(seq![v]),
{
    assert(i16_stream(s.push(v)) =~= i16_stream(s) + i16_stream(seq![v]));
}

/// Appends a number of four bytes.
pub fn push_u32(out: &mut Vec<u8>, v: u32)
    ensures
        final(out)@ == old(out)@ + u32_stream(seq![v]),
{
    out.push((v % 0x100) as u8);
    out.push((v / 0x100 % 0x100) as u8);
    out.push((v / 0x1_0000 % 0x100) as u8);
    out.push((v / 0x100_0000) as u8);
    assert(out@ =~= old(out)@ + u32_stream(seq![v]));
}

/// Appends a number of two bytes.
pub fn push_i16(out: &mut Vec<u8>, v: i16)
    ensures
        final(out)@ == old(out)@ + i16_stream(seq![v]),
{
    let u: i32 = if v < 0 {
        v as i32 + 0x1_0000
    } else {
        v as i32
    };
    out.push((u % 0x100) as u8);
    out.push((u / 0x100) as u8);
    assert(out@ =~= old(out)@ + i16_stream(seq![v]));
}

} // verus!
