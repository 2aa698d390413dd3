//! Big-endian readers and writers over in-memory byte buffers.

use vstd::prelude::*;

verus! {

/// Errors of the in-memory [`Reader`] and [`Writer`].
#[derive(Debug, Clone, Copy, PartialEq, Eq, Structural)]
pub enum IoError {
    /// The input ended before the value being read.
    UnexpectedEof,
    /// The input held something other than what was expected (non-zero padding, invalid UTF-8).
    InvalidData,
    /// The output would grow past the largest possible buffer.
    TooLarge,
}

/// The unsigned value of two big-endian bytes.
pub open spec fn be16(b0: u8, b1: u8) -> int {
    b0 * 256 + b1
}

/// The unsigned value of four big-endian bytes.
pub open spec fn be32(b0: u8, b1: u8, b2: u8, b3: u8) -> int {
    b0 * 0x100_0000 + b1 * 0x1_0000 + b2 * 0x100 + b3
}

/// The two's complement reading of a byte.
pub open spec fn signed8(b: u8) -> int {
    if b < 128 { b as int } else { b - 256 }
}

/// The two's complement reading of a 16-bit word.
pub open spec fn signed16(w: int) -> int {
    if w < 0x8000 { w } else { w - 0x1_0000 }
}

/// The big-endian bytes of a 16-bit word.
pub open spec fn u16_bytes(v: u16) -> Seq<u8> {
    seq![(v / 256) as u8, (v % 256) as u8]
}

/// The big-endian bytes of a 32-bit word.
pub open spec fn u32_bytes(v: u32) -> Seq<u8> {
    seq![(v / 0x100_0000) as u8, ((v / 0x1_0000) % 256) as u8, ((v / 256) % 256) as u8, (v % 256) as u8]
}

/// The byte that holds a signed 8-bit value in two's complement.
pub open spec fn i8_byte(v: i8) -> u8 {
    if v < 0 { (v + 256) as u8 } else { v as u8 }
}

/// The big-endian bytes of a signed 16-bit value in two's complement.
pub open spec fn i16_bytes(v: i16) -> Seq<u8> {
    u16_bytes(if v < 0 { (v + 0x1_0000) as u16 } else { v as u16 })
}

/// `n` zero bytes.
pub open spec fn zeros(n: nat) -> Seq<u8> {
    Seq::new(n, |i: int| 0u8)
}

/// The `n` bytes of `s` from `p` on.
pub open spec fn field_at(s: Seq<u8>, p: int, n: int) -> Seq<u8> {
    Seq::new(n as nat, |i: int| s[p + i])
}

/// Whether the `n` bytes of `s` from `p` on are all zero.
pub open spec fn zero_run(s: Seq<u8>, p: int, n: int) -> bool {
    forall|i: int| 0 <= i < n ==> #[trigger] s[p + i] == 0
}

/// `buf` after writing `data` at `pos`, where a gap between the end of `buf` and `pos` is
/// filled with zeros. Writing nothing leaves `buf` as it is.
pub open spec fn overwrite(buf: Seq<u8>, pos: int, data: Seq<u8>) -> Seq<u8> {
    if data.len() == 0 {
        buf
    } else {
        overwrite_padded(buf, pos, data)
    }
}

/// `buf` after writing `data` at `pos`, where a gap between the end of `buf` and `pos` is
/// filled with zeros, even when `data` is empty.
pub open spec fn overwrite_padded(buf: Seq<u8>, pos: int, data: Seq<u8>) -> Seq<u8> {
    let len = if buf.len() >= pos + data.len() { buf.len() as int } else { pos + data.len() };
    Seq::new(
        len as nat,
        |i: int|
            if pos <= i < pos + data.len() {
                data[i - pos]
            } else if i < buf.len() {
                buf[i]
            } else {
                0u8
            },
    )
}

/// The length of the C string at the start of `s`: the bytes before the first NUL, or all of
/// `s` if it holds none.
pub open spec fn cstr_len(s: Seq<u8>) -> nat
    decreases s.len(),
{
    if s.len() == 0 {
        0
    } else if s[0] == 0 {
        0
    } else {
        1 + cstr_len(s.drop_first())
    }
}

/// The bytes of the C string at the start of `s`.
pub open spec fn cstr_bytes(s: Seq<u8>) -> Seq<u8> {
    s.take(cstr_len(s) as int)
}

/// The characters of `s` that UTF-8 encodes in a single byte, as those bytes.
pub open spec fn ascii_bytes(s: Seq<char>) -> Seq<u8>
    decreases s.len(),
{
    if s.len() == 0 {
        Seq::empty()
    } else if (s.last() as u32) < 0x80 {
        ascii_bytes(s.drop_last()).push(s.last() as u8)
    } else {
        ascii_bytes(s.drop_last())
    }
}

/// The fixed-size field that holds `s` as a NUL-terminated C string of `max_len` bytes:
/// its single-byte characters, cut to `max_len - 1`, padded with NULs.
pub open spec fn cstring_field(s: Seq<char>, max_len: nat) -> Seq<u8> {
    let kept = ascii_bytes(s);
    let kept = if kept.len() > max_len - 1 { kept.take(max_len - 1) } else { kept };
    kept + zeros((max_len - kept.len()) as nat)
}

/// The smallest position at or after `pos` that is a multiple of `alignment`.
pub open spec fn align_up(pos: int, alignment: int) -> int {
    if pos % alignment == 0 { pos } else { pos + (alignment - pos % alignment) }
}

/// What [`align`] returns: the next multiple of `n` at or above `value`, where 0 counts as
/// below every multiple (it aligns to `n`), and `value` itself when `n` is 0 or 1.
pub open spec fn spec_align(value: int, n: int) -> int {
    if n <= 1 {
        value
    } else if value == 0 {
        n
    } else if value % n == 0 {
        value
    } else {
        value + (n - value % n)
    }
}

/// The signed reading of a byte, in two's complement.
pub fn i8_of(b: u8) -> (r: i8)
    ensures
        r == signed8(b),
{
    if b < 128 {
        b as i8
    } else {
        (b as i16 - 256) as i8
    }
}

/// Aligns a value to the next multiple of n.
pub fn align(value: u32, n: u32) -> (r: u32)
    requires
        spec_align(value as int, n as int) <= u32::MAX,
    ensures
        r == spec_align(value as int, n as int),
{
    if n <= 1 {
        return value;
    }
    if value == 0 {
        n
    } else if value % n == 0 {
        value
    } else {
        value + (n - value % n)
    }
}

/// Reads at its position, tracked by [`SeekExt::pos`].
pub trait SeekExt {
    fn pos(&self) -> u64;
}

/// Reads big-endian values and C strings, advancing the position.
pub trait ReadExt {
    fn read_u8(&mut self) -> Result<u8, IoError>;

    fn read_i8(&mut self) -> Result<i8, IoError>;

    fn read_u16_be(&mut self) -> Result<u16, IoError>;

    fn read_i16_be(&mut self) -> Result<i16, IoError>;

    fn read_u32_be(&mut self) -> Result<u32, IoError>;

    fn read_padding(&mut self, num_bytes: u32) -> Result<(), IoError>;

    /// Reads at most `max_len` bytes (the field's length, NUL included) and returns the text
    /// before the first NUL.
    fn read_cstring(&mut self, max_len: u64) -> Result<String, IoError>;
}

/// Writes big-endian values and C strings, advancing the position.
pub trait WriteExt {
    fn write_u8(&mut self, value: u8) -> Result<(), IoError>;

    fn write_i8(&mut self, value: i8) -> Result<(), IoError>;

    fn write_u16_be(&mut self, value: u16) -> Result<(), IoError>;

    fn write_i16_be(&mut self, value: i16) -> Result<(), IoError>;

    fn write_u32_be(&mut self, value: u32) -> Result<(), IoError>;

    /// Writes `string` as a field of `max_len` bytes (NUL included), dropping characters that do
    /// not fit in one byte.
    fn write_cstring_lossy(&mut self, string: &str, max_len: usize) -> Result<(), IoError>;

    /// Seeks to a position, writes the value, then seeks back.
    fn write_u16_be_at(&mut self, value: u16, pos: u64) -> Result<(), IoError>;

    fn write_u32_be_at(&mut self, value: u32, pos: u64) -> Result<(), IoError>;

    /// Writes zeros until the position is a multiple of `alignment`.
    fn align(&mut self, alignment: u64) -> Result<(), IoError>;
}

/// UTF-8 decoding of `bytes`, as `String::from_utf8`; `None` when they are not valid UTF-8.
#[verifier::external_body]
fn string_from_utf8(bytes: Vec<u8>) -> (r: Option<String>)
    ensures
        r is Some <==> vstd::utf8::valid_utf8(bytes@),
        r matches Some(s) ==> s@ == vstd::utf8::decode_utf8(bytes@),
{
    String::from_utf8(bytes).ok()
}

/// A read cursor over a byte slice. The position may lie past the end; reads there fail.
pub struct Reader<'a> {
    data: &'a [u8],
    pos: usize,
}

impl<'a> Reader<'a> {
    /// The bytes being read.
    pub closed spec fn input(&self) -> Seq<u8> {
        self.data@
    }

    /// The position of the next read.
    pub closed spec fn cursor(&self) -> int {
        self.pos as int
    }

    pub fn new(data: &'a [u8]) -> (r: Self)
        ensures
            r.input() == data@,
            r.cursor() == 0,
    {
        Reader { data, pos: 0 }
    }

    pub fn len(&self) -> (r: usize)
        ensures
            r == self.input().len(),
    {
        self.data.len()
    }

    pub fn position(&self) -> (r: usize)
        ensures
            r == self.cursor(),
    {
        self.pos
    }

    /// The byte at index `i` of the input, if there is one.
    pub fn byte_at(&self, i: usize) -> (r: Option<u8>)
        ensures
            i < self.input().len() ==> r == Some(self.input()[i as int]),
            i >= self.input().len() ==> r is None,
    {
        if i < self.data.len() {
            Some(self.data[i])
        } else {
            None
        }
    }

    pub fn seek(&mut self, pos: usize)
        ensures
            final(self).input() == old(self).input(),
            final(self).cursor() == pos,
    {
        self.pos = pos;
    }

    /// Reads `n` bytes.
    pub fn read_bytes(&mut self, n: usize) -> (r: Result<Vec<u8>, IoError>)
        ensures
            final(self).input() == old(self).input(),
            old(self).cursor() + n <= old(self).input().len() ==> {
                &&& (r matches Ok(v) && v@ == old(self).input().subrange(
                    old(self).cursor(),
                    old(self).cursor() + n,
                ))
                &&& final(self).cursor() == old(self).cursor() + n
            },
            old(self).cursor() + n > old(self).input().len() ==> r == Err::<Vec<u8>, IoError>(
                IoError::UnexpectedEof,
            ) && final(self).cursor() == old(self).cursor(),
    {
        if self.pos > self.data.len() || n > self.data.len() - self.pos {
            return Err(IoError::UnexpectedEof);
        }
        let mut v: Vec<u8> = Vec::new();
        let mut i: usize = 0;
        while i < n
            invariant
                self.data@.len() <= usize::MAX,
                self.pos + n <= self.data@.len(),
                i <= n,
                v@ == self.data@.subrange(self.pos as int, self.pos + i),
            decreases n - i,
        {
            v.push(self.data[self.pos + i]);
            i += 1;
        }
        self.pos = self.pos + n;
        Ok(v)
    }
}

/// A reader's position is never negative.
pub broadcast proof fn lemma_reader_cursor(r: &Reader)
    ensures
        0 <= #[trigger] r.cursor() <= usize::MAX,
{
}

impl<'a> SeekExt for Reader<'a> {
    fn pos(&self) -> (r: u64)
        ensures
            r == self.cursor(),
    {
        self.pos as u64
    }
}

/// The C string at the start of `s` is its first `i` bytes when they hold no NUL and a NUL or
/// the end follows.
pub proof fn lemma_cstr_len(s: Seq<u8>, i: int)
    requires
        0 <= i <= s.len(),
        forall|j: int| 0 <= j < i ==> s[j] != 0,
        i == s.len() || s[i] == 0,
    ensures
        cstr_len(s) == i,
    decreases i,
{
    if i > 0 {
        lemma_cstr_len(s.drop_first(), i - 1);
    }
}

impl<'a> ReadExt for Reader<'a> {
    fn read_u8(&mut self) -> (r: Result<u8, IoError>)
        ensures
            final(self).input() == old(self).input(),
            old(self).cursor() < old(self).input().len() ==> r == Ok::<u8, IoError>(
                old(self).input()[old(self).cursor()],
            ) && final(self).cursor() == old(self).cursor() + 1,
            old(self).cursor() >= old(self).input().len() ==> r == Err::<u8, IoError>(
                IoError::UnexpectedEof,
            ) && final(self).cursor() == old(self).cursor(),
    {
        if self.pos < self.data.len() {
            let b = self.data[self.pos];
            self.pos = self.pos + 1;
            Ok(b)
        } else {
            Err(IoError::UnexpectedEof)
        }
    }

    fn read_i8(&mut self) -> (r: Result<i8, IoError>)
        ensures
            final(self).input() == old(self).input(),
            old(self).cursor() < old(self).input().len() ==> (r matches Ok(v) && v == signed8(
                old(self).input()[old(self).cursor()],
            ) && final(self).cursor() == old(self).cursor() + 1),
            old(self).cursor() >= old(self).input().len() ==> r == Err::<i8, IoError>(
                IoError::UnexpectedEof,
            ) && final(self).cursor() == old(self).cursor(),
    {
        let b = self.read_u8()?;
        if b < 128 {
            Ok(b as i8)
        } else {
            Ok((b as i16 - 256) as i8)
        }
    }

    fn read_u16_be(&mut self) -> (r: Result<u16, IoError>)
        ensures
            final(self).input() == old(self).input(),
            old(self).cursor() + 2 <= old(self).input().len() ==> (r matches Ok(v) && v == be16(
                old(self).input()[old(self).cursor()],
                old(self).input()[old(self).cursor() + 1],
            ) && final(self).cursor() == old(self).cursor() + 2),
            old(self).cursor() + 2 > old(self).input().len() ==> r == Err::<u16, IoError>(
                IoError::UnexpectedEof,
            ) && final(self).cursor() == old(self).cursor(),
    {
        if self.pos >= self.data.len() || self.data.len() - self.pos < 2 {
            return Err(IoError::UnexpectedEof);
        }
        let b0 = self.data[self.pos];
        let b1 = self.data[self.pos + 1];
        self.pos = self.pos + 2;
        Ok((b0 as u16) * 256 + (b1 as u16))
    }

    fn read_i16_be(&mut self) -> (r: Result<i16, IoError>)
        ensures
            final(self).input() == old(self).input(),
            old(self).cursor() + 2 <= old(self).input().len() ==> (r matches Ok(v) && v
                == signed16(
                be16(old(self).input()[old(self).cursor()], old(self).input()[old(self).cursor() + 1]),
            ) && final(self).cursor() == old(self).cursor() + 2),
            old(self).cursor() + 2 > old(self).input().len() ==> r == Err::<i16, IoError>(
                IoError::UnexpectedEof,
            ) && final(self).cursor() == old(self).cursor(),
    {
        let w = self.read_u16_be()?;
        if w < 0x8000 {
            Ok(w as i16)
        } else {
            Ok((w as i32 - 0x1_0000) as i16)
        }
    }

    fn read_u32_be(&mut self) -> (r: Result<u32, IoError>)
        ensures
            final(self).input() == old(self).input(),
            old(self).cursor() + 4 <= old(self).input().len() ==> (r matches Ok(v) && v == be32(
                old(self).input()[old(self).cursor()],
                old(self).input()[old(self).cursor() + 1],
                old(self).input()[old(self).cursor() + 2],
                old(self).input()[old(self).cursor() + 3],
            ) && final(self).cursor() == old(self).cursor() + 4),
            old(self).cursor() + 4 > old(self).input().len() ==> r == Err::<u32, IoError>(
                IoError::UnexpectedEof,
            ) && final(self).cursor() == old(self).cursor(),
    {
        if self.pos >= self.data.len() || self.data.len() - self.pos < 4 {
            return Err(IoError::UnexpectedEof);
        }
        let b0 = self.data[self.pos];
        let b1 = self.data[self.pos + 1];
        let b2 = self.data[self.pos + 2];
        let b3 = self.data[self.pos + 3];
        self.pos = self.pos + 4;
        Ok((b0 as u32) * 0x100_0000 + (b1 as u32) * 0x1_0000 + (b2 as u32) * 0x100 + (b3 as u32))
    }

    fn read_padding(&mut self, num_bytes: u32) -> (r: Result<(), IoError>)
        ensures
            final(self).input() == old(self).input(),
            ({
                let p = old(self).cursor();
                let s = old(self).input();
                let avail = if p + num_bytes <= s.len() { num_bytes as int } else if p <= s.len() {
                    s.len() - p
                } else {
                    0
                };
                &&& !zero_run(s, p, avail) ==> r == Err::<(), IoError>(IoError::InvalidData)
                &&& zero_run(s, p, avail) && avail < num_bytes ==> r == Err::<(), IoError>(
                    IoError::UnexpectedEof,
                )
                &&& zero_run(s, p, avail) && avail == num_bytes ==> r == Ok::<(), IoError>(())
                    && final(self).cursor() == p + num_bytes
            }),
    {
        let ghost p = self.pos as int;
        let ghost s = self.data@;
        let mut i: u32 = 0;
        while i < num_bytes
            invariant
                self.data@ == s,
                s == old(self).data@,
                p == old(self).pos,
                self.pos == p + i,
                i <= num_bytes,
                i > 0 ==> p + i <= s.len(),
                zero_run(s, p, i as int),
            decreases num_bytes - i,
        {
            let b = self.read_u8();
            match b {
                Ok(b) => {
                    if b != 0 {
                        assert(s[p + i] == b);
                        return Err(IoError::InvalidData);
                    }
                    i = i + 1;
                },
                Err(e) => {
                    return Err(e);
                },
            }
        }
        Ok(())
    }

    fn read_cstring(&mut self, max_len: u64) -> (r: Result<String, IoError>)
        ensures
            final(self).input() == old(self).input(),
            ({
                let p = old(self).cursor();
                let s = old(self).input();
                let n = if p >= s.len() { 0 } else if p + max_len <= s.len() {
                    max_len as int
                } else {
                    s.len() - p
                };
                let text = cstr_bytes(field_at(s, p, n));
                &&& final(self).cursor() == p + n
                &&& vstd::utf8::valid_utf8(text) ==> (r matches Ok(st) && st@
                    == vstd::utf8::decode_utf8(text))
                &&& !vstd::utf8::valid_utf8(text) ==> r == Err::<String, IoError>(
                    IoError::InvalidData,
                )
            }),
    {
        let ghost s = self.data@;
        let ghost p = self.pos as int;
        let n: usize = if self.pos >= self.data.len() {
            0
        } else if max_len as u128 <= (self.data.len() - self.pos) as u128 {
            max_len as usize
        } else {
            self.data.len() - self.pos
        };
        let ghost field = field_at(s, p, n as int);
        let mut buffer: Vec<u8> = Vec::new();
        let mut i: usize = 0;
        while i < n
            invariant_except_break
                s.len() <= usize::MAX,
                self.data@ == s,
                self.pos == p,
                p + n <= s.len() || n == 0,
                field == field_at(s, p, n as int),
                i <= n,
                forall|j: int| 0 <= j < i ==> field[j] != 0,
                buffer@ == field.take(i as int),
            ensures
                s.len() <= usize::MAX,
                self.data@ == s,
                self.pos == p,
                i <= n,
                forall|j: int| 0 <= j < i ==> field[j] != 0,
                i == n || field[i as int] == 0,
                buffer@ == field.take(i as int),
            decreases n - i,
        {
            let b = self.data[self.pos + i];
            if b == 0 {
                break;
            }
            buffer.push(b);
            i = i + 1;
        }
        proof {
            lemma_cstr_len(field, i as int);
        }
        self.pos = self.pos + n;
        match string_from_utf8(buffer) {
            Some(st) => Ok(st),
            None => Err(IoError::InvalidData),
        }
    }
}


/// A write cursor over a growable byte buffer. Writing past the end grows the buffer, filling
/// any gap with zeros.
pub struct Writer {
    buf: Vec<u8>,
    pos: usize,
}

impl Writer {
    /// The bytes written so far.
    pub closed spec fn contents(&self) -> Seq<u8> {
        self.buf@
    }

    /// The position of the next write.
    pub closed spec fn cursor(&self) -> int {
        self.pos as int
    }

    pub fn new() -> (r: Self)
        ensures
            r.contents() == Seq::<u8>::empty(),
            r.cursor() == 0,
    {
        Writer { buf: Vec::new(), pos: 0 }
    }

    pub fn into_inner(self) -> (r: Vec<u8>)
        ensures
            r@ == self.contents(),
    {
        self.buf
    }

    pub fn position(&self) -> (r: usize)
        ensures
            r == self.cursor(),
    {
        self.pos
    }

    pub fn seek(&mut self, pos: usize)
        ensures
            final(self).contents() == old(self).contents(),
            final(self).cursor() == pos,
    {
        self.pos = pos;
    }

    /// Writes `data` at the position and moves past it.
    pub fn write_all(&mut self, data: &[u8]) -> (r: Result<(), IoError>)
        ensures
            old(self).cursor() + data@.len() <= usize::MAX ==> r == Ok::<(), IoError>(())
                && final(self).contents() == overwrite(old(self).contents(), old(self).cursor(), data@)
                && final(self).cursor() == old(self).cursor() + data@.len(),
            old(self).cursor() + data@.len() > usize::MAX ==> r == Err::<(), IoError>(
                IoError::TooLarge,
            ) && *final(self) == *old(self),
    {
        if data.len() > usize::MAX - self.pos {
            return Err(IoError::TooLarge);
        }
        if data.len() == 0 {
            assert(overwrite(self.buf@, self.pos as int, data@) =~= self.buf@);
            return Ok(());
        }
        let ghost old_buf = self.buf@;
        let pos = self.pos;
        while self.buf.len() < pos
            invariant
                self.pos == pos,
                self.buf@.len() == old_buf.len() || self.buf@.len() <= pos,
                self.buf@.len() >= old_buf.len(),
                self.buf@ == old_buf + zeros((self.buf@.len() - old_buf.len()) as nat),
            decreases pos - self.buf@.len(),
        {
            self.buf.push(0);
            assert(self.buf@ =~= old_buf + zeros((self.buf@.len() - old_buf.len()) as nat));
        }
        let ghost padded = self.buf@;
        assert(padded =~= overwrite_padded(old_buf, pos as int, data@.take(0)));
        let mut k: usize = 0;
        while k < data.len()
            invariant
                self.pos == pos,
                pos + data@.len() <= usize::MAX,
                k <= data@.len(),
                self.buf@ =~= overwrite_padded(old_buf, pos as int, data@.take(k as int)),
            decreases data@.len() - k,
        {
            let ghost before = self.buf@;
            if pos + k < self.buf.len() {
                self.buf.set(pos + k, data[k]);
            } else {
                self.buf.push(data[k]);
            }
            k = k + 1;
            assert(self.buf@ =~= overwrite_padded(old_buf, pos as int, data@.take(k as int)));
        }
        assert(data@.take(data@.len() as int) =~= data@);
        self.pos = pos + data.len();
        Ok(())
    }
}

/// Writing `x` and then `y` right after it is writing `x + y`.
pub proof fn lemma_overwrite_concat(buf: Seq<u8>, p: int, x: Seq<u8>, y: Seq<u8>)
    requires
        0 <= p,
    ensures
        overwrite(overwrite(buf, p, x), p + x.len(), y) == overwrite(buf, p, x + y),
{
    if x.len() == 0 {
        assert(x + y =~= y);
    } else if y.len() == 0 {
        assert(x + y =~= x);
    } else {
        assert(overwrite(overwrite(buf, p, x), p + x.len(), y) =~= overwrite(buf, p, x + y));
    }
}

/// The big-endian bytes of a 16-bit word read back as that word.
pub proof fn lemma_u16_bytes(v: u16)
    ensures
        u16_bytes(v).len() == 2,
        be16(u16_bytes(v)[0], u16_bytes(v)[1]) == v,
{
    assert(((v / 256) as u8) * 256 + ((v % 256) as u8) == v) by (nonlinear_arith);
}

/// The big-endian bytes of a 32-bit word read back as that word.
pub proof fn lemma_u32_bytes(v: u32)
    ensures
        u32_bytes(v).len() == 4,
        be32(u32_bytes(v)[0], u32_bytes(v)[1], u32_bytes(v)[2], u32_bytes(v)[3]) == v,
{
    assert(((v / 0x100_0000) as u8) * 0x100_0000 + (((v / 0x1_0000) % 256) as u8) * 0x1_0000 + (((v / 256) % 256) as u8)
        * 0x100 + ((v % 256) as u8) == v) by (nonlinear_arith);
}

/// A signed byte read back as itself.
pub proof fn lemma_i8_byte(v: i8)
    ensures
        signed8(i8_byte(v)) == v,
{
}

/// The bytes of a signed 16-bit value read back as that value.
pub proof fn lemma_i16_bytes(v: i16)
    ensures
        i16_bytes(v).len() == 2,
        signed16(be16(i16_bytes(v)[0], i16_bytes(v)[1])) == v,
{
    let w: u16 = if v < 0 { (v + 0x1_0000) as u16 } else { v as u16 };
    lemma_u16_bytes(w);
}

/// A writer's position is never negative.
pub broadcast proof fn lemma_writer_cursor(w: &Writer)
    ensures
        0 <= #[trigger] w.cursor() <= usize::MAX,
{
}

/// The facts that hold of every reader and writer.
pub broadcast group group_rw {
    lemma_reader_cursor,
    lemma_writer_cursor,
}

impl WriteExt for Writer {
    fn write_u8(&mut self, value: u8) -> (r: Result<(), IoError>)
        ensures
            old(self).cursor() + 1 <= usize::MAX ==> r == Ok::<(), IoError>(())
                && final(self).contents() == overwrite(old(self).contents(), old(self).cursor(), seq![value])
                && final(self).cursor() == old(self).cursor() + 1,
            old(self).cursor() + 1 > usize::MAX ==> r == Err::<(), IoError>(IoError::TooLarge)
                && *final(self) == *old(self),
    {
        let bytes = [value];
        assert(bytes@ =~= seq![value]);
        self.write_all(&bytes)
    }

    fn write_i8(&mut self, value: i8) -> (r: Result<(), IoError>)
        ensures
            old(self).cursor() + 1 <= usize::MAX ==> r == Ok::<(), IoError>(())
                && final(self).contents() == overwrite(old(self).contents(), old(self).cursor(), seq![i8_byte(value)])
                && final(self).cursor() == old(self).cursor() + 1,
            old(self).cursor() + 1 > usize::MAX ==> r == Err::<(), IoError>(IoError::TooLarge)
                && *final(self) == *old(self),
    {
        let b: u8 = if value < 0 { (value as i16 + 256) as u8 } else { value as u8 };
        self.write_u8(b)
    }

    fn write_u16_be(&mut self, value: u16) -> (r: Result<(), IoError>)
        ensures
            old(self).cursor() + 2 <= usize::MAX ==> r == Ok::<(), IoError>(())
                && final(self).contents() == overwrite(old(self).contents(), old(self).cursor(), u16_bytes(value))
                && final(self).cursor() == old(self).cursor() + 2,
            old(self).cursor() + 2 > usize::MAX ==> r == Err::<(), IoError>(IoError::TooLarge)
                && *final(self) == *old(self),
    {
        let bytes = [(value / 256) as u8, (value % 256) as u8];
        assert(bytes@ =~= u16_bytes(value));
        self.write_all(&bytes)
    }

    fn write_i16_be(&mut self, value: i16) -> (r: Result<(), IoError>)
        ensures
            old(self).cursor() + 2 <= usize::MAX ==> r == Ok::<(), IoError>(())
                && final(self).contents() == overwrite(old(self).contents(), old(self).cursor(), i16_bytes(value))
                && final(self).cursor() == old(self).cursor() + 2,
            old(self).cursor() + 2 > usize::MAX ==> r == Err::<(), IoError>(IoError::TooLarge)
                && *final(self) == *old(self),
    {
        let w: u16 = if value < 0 { (value as i32 + 0x1_0000) as u16 } else { value as u16 };
        self.write_u16_be(w)
    }

    fn write_u32_be(&mut self, value: u32) -> (r: Result<(), IoError>)
        ensures
            old(self).cursor() + 4 <= usize::MAX ==> r == Ok::<(), IoError>(())
                && final(self).contents() == overwrite(old(self).contents(), old(self).cursor(), u32_bytes(value))
                && final(self).cursor() == old(self).cursor() + 4,
            old(self).cursor() + 4 > usize::MAX ==> r == Err::<(), IoError>(IoError::TooLarge)
                && *final(self) == *old(self),
    {
        let bytes = [
            (value / 0x100_0000) as u8,
            ((value / 0x1_0000) % 256) as u8,
            ((value / 256) % 256) as u8,
            (value % 256) as u8,
        ];
        assert(bytes@ =~= u32_bytes(value));
        self.write_all(&bytes)
    }

    fn write_cstring_lossy(&mut self, string: &str, max_len: usize) -> (r: Result<(), IoError>)
        ensures
            max_len >= 1 ==> (old(self).cursor() + max_len <= usize::MAX ==> r == Ok::<(), IoError>(())
                && final(self).contents() == overwrite(
                    old(self).contents(),
                    old(self).cursor(),
                    cstring_field(string@, max_len as nat),
                ) && final(self).cursor() == old(self).cursor() + max_len),
            max_len >= 1 ==> (old(self).cursor() + max_len > usize::MAX ==> r == Err::<(), IoError>(
                IoError::TooLarge,
            ) && *final(self) == *old(self)),
            max_len == 0 ==> r == Err::<(), IoError>(IoError::InvalidData) && *final(self) == *old(self),
    {
        if max_len == 0 {
            return Err(IoError::InvalidData);
        }
        let field = cstring_field_bytes(string, max_len);
        self.write_all(field.as_slice())
    }

    fn write_u16_be_at(&mut self, value: u16, pos: u64) -> (r: Result<(), IoError>)
        ensures
            pos + 2 <= usize::MAX ==> r == Ok::<(), IoError>(())
                && final(self).contents() == overwrite(old(self).contents(), pos as int, u16_bytes(value))
                && final(self).cursor() == old(self).cursor(),
            pos + 2 > usize::MAX ==> r == Err::<(), IoError>(IoError::TooLarge)
                && *final(self) == *old(self),
    {
        if pos > (usize::MAX - 2) as u64 {
            return Err(IoError::TooLarge);
        }
        let old_pos = self.pos;
        self.pos = pos as usize;
        let r = self.write_u16_be(value);
        self.pos = old_pos;
        r
    }

    fn write_u32_be_at(&mut self, value: u32, pos: u64) -> (r: Result<(), IoError>)
        ensures
            pos + 4 <= usize::MAX ==> r == Ok::<(), IoError>(())
                && final(self).contents() == overwrite(old(self).contents(), pos as int, u32_bytes(value))
                && final(self).cursor() == old(self).cursor(),
            pos + 4 > usize::MAX ==> r == Err::<(), IoError>(IoError::TooLarge)
                && *final(self) == *old(self),
    {
        if pos > (usize::MAX - 4) as u64 {
            return Err(IoError::TooLarge);
        }
        let old_pos = self.pos;
        self.pos = pos as usize;
        let r = self.write_u32_be(value);
        self.pos = old_pos;
        r
    }

    fn align(&mut self, alignment: u64) -> (r: Result<(), IoError>)
        ensures
            alignment > 0 && align_up(old(self).cursor(), alignment as int) <= usize::MAX ==> r
                == Ok::<(), IoError>(()) && final(self).contents() == overwrite(
                old(self).contents(),
                old(self).cursor(),
                zeros((align_up(old(self).cursor(), alignment as int) - old(self).cursor()) as nat),
            ) && final(self).cursor() == align_up(old(self).cursor(), alignment as int),
            alignment > 0 && align_up(old(self).cursor(), alignment as int) > usize::MAX ==> r
                == Err::<(), IoError>(IoError::TooLarge) && *final(self) == *old(self),
            alignment == 0 ==> r == Err::<(), IoError>(IoError::InvalidData) && *final(self) == *old(self),
    {
        if alignment == 0 {
            return Err(IoError::InvalidData);
        }
        let pos = self.pos as u64;
        let rem = pos % alignment;
        if rem == 0 {
            assert(overwrite(self.buf@, self.pos as int, zeros(0)) =~= self.buf@);
            return Ok(());
        }
        let delta = alignment - rem;
        if delta > (usize::MAX - self.pos) as u64 {
            return Err(IoError::TooLarge);
        }
        let mut zs: Vec<u8> = Vec::new();
        let mut i: u64 = 0;
        while i < delta
            invariant
                i <= delta,
                zs@ =~= zeros(i as nat),
            decreases delta - i,
        {
            zs.push(0);
            i = i + 1;
        }
        self.write_all(zs.as_slice())
    }
}

/// The bytes of [`cstring_field`]: the single-byte characters of `string`, cut to
/// `max_len - 1`, padded with NULs to `max_len`.
fn cstring_field_bytes(string: &str, max_len: usize) -> (r: Vec<u8>)
    requires
        max_len >= 1,
    ensures
        r@ == cstring_field(string@, max_len as nat),
{
    let mut bytes: Vec<u8> = Vec::new();
    let ghost chars = string@;
    for ch in it: string.chars()
        invariant
            it.seq() == chars,
            bytes@ == ascii_bytes(chars.take(it.index() as int)),
    {
        assert(chars.take(it.index() + 1).drop_last() =~= chars.take(it.index() as int));
        if (ch as u32) < 0x80 {
            bytes.push(ch as u8);
        }
    }
    assert(chars.take(chars.len() as int) =~= chars);
    let ghost kept = bytes@;
    assert(kept == ascii_bytes(chars));
    if bytes.len() > max_len - 1 {
        bytes.truncate(max_len - 1);
    }
    let ghost cut = bytes@;
    assert(cut == if kept.len() > max_len - 1 { kept.take(max_len - 1) } else { kept });
    while bytes.len() < max_len
        invariant
            bytes@.len() <= max_len,
            cut.len() <= max_len,
            cut.len() <= bytes@.len(),
            bytes@ =~= cut + zeros((bytes@.len() - cut.len()) as nat),
        decreases max_len - bytes@.len(),
    {
        bytes.push(0);
    }
    bytes
}

} // verus!
