//! Byte archives and the primitive codec: little-endian fixed-width integers,
//! bool-as-u32, length-prefixed NUL-terminated strings. Every wire form has a
//! specification-level encoder and parser, and the parsers invert the encoders.

use vstd::bytes::*;
use vstd::prelude::*;
use vstd::slice::*;
use vstd::utf8::*;

use crate::PakError;

verus! {

broadcast use vstd::string::group_string_axioms;

// ---------------------------------------------------------------------------
// Specification-level encoders
// ---------------------------------------------------------------------------
pub open spec fn enc_u8(x: u8) -> Seq<u8> {
    seq![x]
}

pub open spec fn enc_u32(x: u32) -> Seq<u8> {
    spec_u32_to_le_bytes(x)
}

pub open spec fn enc_u64(x: u64) -> Seq<u8> {
    spec_u64_to_le_bytes(x)
}

pub open spec fn enc_i32(x: i32) -> Seq<u8> {
    spec_u32_to_le_bytes(x as u32)
}

pub open spec fn enc_i64(x: i64) -> Seq<u8> {
    spec_u64_to_le_bytes(x as u64)
}

/// Bools on the wire are a u32: nonzero means true.
pub open spec fn enc_b32(b: bool) -> Seq<u8> {
    enc_u32(if b { 1 } else { 0 })
}

/// The UTF-8 bytes of a string value.
pub open spec fn str_bytes(s: Seq<char>) -> Seq<u8> {
    encode_utf8(s)
}

/// Whether a string's encoding, terminator included, has a u32-representable length.
pub open spec fn str_fits(s: Seq<char>) -> bool {
    str_bytes(s).len() + 1 <= u32::MAX
}

/// A string: u32 length including the terminating NUL, the UTF-8 bytes, a NUL.
pub open spec fn enc_str(s: Seq<char>) -> Seq<u8> {
    enc_u32((str_bytes(s).len() + 1) as u32) + str_bytes(s) + seq![0u8]
}

// ---------------------------------------------------------------------------
// Specification-level parsers: value plus bytes consumed, from a prefix
// ---------------------------------------------------------------------------
pub open spec fn dec_u8(s: Seq<u8>) -> Option<(u8, int)> {
    if s.len() >= 1 {
        Some((s[0], 1int))
    } else {
        None
    }
}

pub open spec fn dec_u32(s: Seq<u8>) -> Option<(u32, int)> {
    if s.len() >= 4 {
        Some((spec_u32_from_le_bytes(s.subrange(0, 4)), 4int))
    } else {
        None
    }
}

pub open spec fn dec_u64(s: Seq<u8>) -> Option<(u64, int)> {
    if s.len() >= 8 {
        Some((spec_u64_from_le_bytes(s.subrange(0, 8)), 8int))
    } else {
        None
    }
}

pub open spec fn dec_i32(s: Seq<u8>) -> Option<(i32, int)> {
    match dec_u32(s) {
        Some((x, n)) => Some((x as i32, n)),
        None => None,
    }
}

pub open spec fn dec_i64(s: Seq<u8>) -> Option<(i64, int)> {
    match dec_u64(s) {
        Some((x, n)) => Some((x as i64, n)),
        None => None,
    }
}

pub open spec fn dec_b32(s: Seq<u8>) -> Option<(bool, int)> {
    match dec_u32(s) {
        Some((x, n)) => Some((x != 0, n)),
        None => None,
    }
}

pub open spec fn dec_str(s: Seq<u8>) -> Option<(Seq<char>, int)> {
    match dec_u32(s) {
        Some((l32, _)) => {
            let l = l32 as int;
            if l >= 1 && s.len() >= 4 + l && s[4 + l - 1] == 0u8 && valid_utf8(
                s.subrange(4, 4 + l - 1),
            ) {
                Some((decode_utf8(s.subrange(4, 4 + l - 1)), 4 + l))
            } else {
                None
            }
        },
        None => None,
    }
}

// ---------------------------------------------------------------------------
// Parsers invert encoders, in the presence of any trailing bytes
// ---------------------------------------------------------------------------
pub proof fn lemma_dec_u8(x: u8, rest: Seq<u8>)
    ensures
        dec_u8(enc_u8(x) + rest) == Some((x, 1int)),
{
    assert((enc_u8(x) + rest)[0] == x);
}

pub proof fn lemma_dec_u32(x: u32, rest: Seq<u8>)
    ensures
        dec_u32(enc_u32(x) + rest) == Some((x, 4int)),
{
    lemma_auto_spec_u32_to_from_le_bytes();
    assert((enc_u32(x) + rest).subrange(0, 4) =~= enc_u32(x));
}

pub proof fn lemma_dec_u64(x: u64, rest: Seq<u8>)
    ensures
        dec_u64(enc_u64(x) + rest) == Some((x, 8int)),
{
    lemma_auto_spec_u64_to_from_le_bytes();
    assert((enc_u64(x) + rest).subrange(0, 8) =~= enc_u64(x));
}

pub proof fn lemma_dec_i32(x: i32, rest: Seq<u8>)
    ensures
        dec_i32(enc_i32(x) + rest) == Some((x, 4int)),
{
    lemma_dec_u32(x as u32, rest);
    assert((x as u32) as i32 == x) by (bit_vector);
}

pub proof fn lemma_dec_i64(x: i64, rest: Seq<u8>)
    ensures
        dec_i64(enc_i64(x) + rest) == Some((x, 8int)),
{
    lemma_dec_u64(x as u64, rest);
    assert((x as u64) as i64 == x) by (bit_vector);
}

pub proof fn lemma_dec_b32(b: bool, rest: Seq<u8>)
    ensures
        dec_b32(enc_b32(b) + rest) == Some((b, 4int)),
{
    lemma_dec_u32(if b { 1u32 } else { 0u32 }, rest);
}

pub proof fn lemma_dec_str(s: Seq<char>, rest: Seq<u8>)
    requires
        str_fits(s),
    ensures
        dec_str(enc_str(s) + rest) == Some((s, enc_str(s).len() as int)),
{
    let b = str_bytes(s);
    let l = b.len() + 1;
    let whole = enc_str(s) + rest;
    lemma_auto_spec_u32_to_from_le_bytes();
    lemma_dec_u32(l as u32, b + seq![0u8] + rest);
    assert(whole =~= enc_u32(l as u32) + (b + seq![0u8] + rest));
    assert(whole[4 + l - 1] == 0u8);
    assert(whole.subrange(4, 4 + l as int - 1) =~= b);
    encode_utf8_valid_utf8(s);
    encode_utf8_decode_utf8(s);
    assert(enc_str(s).len() == 4 + l);
}

// ---------------------------------------------------------------------------
// Archives
// ---------------------------------------------------------------------------
/// A write archive over an in-memory buffer.
pub struct ArchiveWriter {
    pub data: Vec<u8>,
}

/// A read archive over an in-memory buffer with a cursor.
pub struct ArchiveReader {
    pub data: Vec<u8>,
    pub pos: usize,
}

/// A write archive that discards bytes and only counts them.
pub struct ArchiveLen {
    len: u64,
}

impl ArchiveLen {
    pub fn new() -> (r: Self)
        ensures
            r.spec_len() == 0,
    {
        ArchiveLen { len: 0 }
    }

    pub closed spec fn spec_len(&self) -> u64 {
        self.len
    }

    pub fn len(&self) -> (r: u64)
        ensures
            r == self.spec_len(),
    {
        self.len
    }

    /// Counts the bytes of the discarded write.
    pub fn write_all(&mut self, buf: &[u8])
        requires
            old(self).spec_len() + buf@.len() <= u64::MAX,
        ensures
            final(self).spec_len() == old(self).spec_len() + buf@.len(),
    {
        self.len = self.len + buf.len() as u64;
    }

    /// A length archive cannot be read.
    pub fn read_exact(&mut self, _n: usize) -> (r: Result<Vec<u8>, PakError>)
        ensures
            r == Err::<Vec<u8>, PakError>(PakError::PermissionDenied),
            final(self).spec_len() == old(self).spec_len(),
    {
        Err(PakError::PermissionDenied)
    }
}

impl ArchiveWriter {
    pub fn new() -> (r: Self)
        ensures
            r.data@ == Seq::<u8>::empty(),
    {
        ArchiveWriter { data: Vec::new() }
    }

    /// Current position: the number of bytes written so far.
    pub fn len(&self) -> (r: usize)
        ensures
            r == self.data@.len(),
    {
        self.data.len()
    }

    /// A write archive cannot be read.
    pub fn read_exact(&mut self, _n: usize) -> (r: Result<Vec<u8>, PakError>)
        ensures
            r == Err::<Vec<u8>, PakError>(PakError::PermissionDenied),
            final(self).data@ == old(self).data@,
    {
        Err(PakError::PermissionDenied)
    }

    pub fn write_all(&mut self, buf: &[u8])
        ensures
            final(self).data@ == old(self).data@ + buf@,
    {
        self.data.extend_from_slice(buf);
    }

    pub fn ser_u8(&mut self, x: u8)
        ensures
            final(self).data@ == old(self).data@ + enc_u8(x),
    {
        self.data.push(x);
        proof {
            assert(final(self).data@ =~= old(self).data@ + enc_u8(x));
        }
    }

    pub fn ser_u32(&mut self, x: u32)
        ensures
            final(self).data@ == old(self).data@ + enc_u32(x),
    {
        let mut b = u32_to_le_bytes(x);
        self.data.append(&mut b);
    }

    pub fn ser_u64(&mut self, x: u64)
        ensures
            final(self).data@ == old(self).data@ + enc_u64(x),
    {
        let mut b = u64_to_le_bytes(x);
        self.data.append(&mut b);
    }

    pub fn ser_i32(&mut self, x: i32)
        ensures
            final(self).data@ == old(self).data@ + enc_i32(x),
    {
        self.ser_u32(x as u32);
    }

    pub fn ser_i64(&mut self, x: i64)
        ensures
            final(self).data@ == old(self).data@ + enc_i64(x),
    {
        self.ser_u64(x as u64);
    }

    pub fn ser_b32(&mut self, b: bool)
        ensures
            final(self).data@ == old(self).data@ + enc_b32(b),
    {
        self.ser_u32(if b { 1 } else { 0 });
    }

    /// Length-prefixed NUL-terminated string; the prefix counts the NUL.
    pub fn ser_str(&mut self, s: &str) -> (r: Result<(), PakError>)
        ensures
            match r {
                Ok(()) => str_fits(s@) && final(self).data@ == old(self).data@ + enc_str(s@),
                Err(e) => e == PakError::InvalidInput && !str_fits(s@) && final(self).data@ == old(self).data@,
            },
    {
        let bytes = s.as_bytes();
        let n = bytes.len();
        if n >= u32::MAX as usize {
            return Err(PakError::InvalidInput);
        }
        self.ser_u32((n + 1) as u32);
        self.data.extend_from_slice(bytes);
        self.ser_u8(0);
        proof {
            assert(final(self).data@ =~= old(self).data@ + enc_str(s@));
        }
        Ok(())
    }
}

impl ArchiveReader {
    pub fn new(data: Vec<u8>) -> (r: Self)
        ensures
            r.data@ == data@,
            r.pos == 0,
    {
        ArchiveReader { data, pos: 0 }
    }

    pub open spec fn wf(&self) -> bool {
        self.pos <= self.data@.len()
    }

    /// The bytes not yet consumed.
    pub open spec fn remaining(&self) -> Seq<u8> {
        self.data@.subrange(self.pos as int, self.data@.len() as int)
    }

    /// A read archive cannot be written.
    pub fn write_all(&mut self, _buf: &[u8]) -> (r: Result<(), PakError>)
        ensures
            r == Err::<(), PakError>(PakError::PermissionDenied),
            *final(self) == *old(self),
    {
        Err(PakError::PermissionDenied)
    }

    /// Moves the cursor to an absolute position inside the buffer.
    pub fn seek(&mut self, pos: usize) -> (r: Result<(), PakError>)
        requires
            old(self).wf(),
        ensures
            final(self).data@ == old(self).data@,
            final(self).wf(),
            match r {
                Ok(()) => pos <= old(self).data@.len() && final(self).pos == pos,
                Err(e) => e == PakError::Eof && pos > old(self).data@.len() && final(self).pos
                    == old(self).pos,
            },
    {
        if pos <= self.data.len() {
            self.pos = pos;
            Ok(())
        } else {
            Err(PakError::Eof)
        }
    }

    pub fn de_u8(&mut self) -> (r: Result<u8, PakError>)
        requires
            old(self).wf(),
        ensures
            final(self).data@ == old(self).data@,
            final(self).wf(),
            match r {
                Ok(x) => dec_u8(old(self).remaining()) == Some((x, 1int)) && final(self).pos == old(self).pos + 1,
                Err(e) => dec_u8(old(self).remaining()) is None && e == PakError::Eof && final(self).pos == old(self).pos,
            },
    {
        if self.data.len() - self.pos < 1 {
            return Err(PakError::Eof);
        }
        let x = self.data[self.pos];
        self.pos = self.pos + 1;
        Ok(x)
    }

    pub fn de_u32(&mut self) -> (r: Result<u32, PakError>)
        requires
            old(self).wf(),
        ensures
            final(self).data@ == old(self).data@,
            final(self).wf(),
            match r {
                Ok(x) => dec_u32(old(self).remaining()) == Some((x, 4int)) && final(self).pos
                    == old(self).pos + 4,
                Err(e) => dec_u32(old(self).remaining()) is None && e == PakError::Eof && final(self).pos == old(self).pos,
            },
    {
        if self.data.len() - self.pos < 4 {
            return Err(PakError::Eof);
        }
        let s = slice_subrange(self.data.as_slice(), self.pos, self.pos + 4);
        let x = u32_from_le_bytes(s);
        proof {
            assert(old(self).remaining().subrange(0, 4) =~= s@);
        }
        self.pos = self.pos + 4;
        Ok(x)
    }

    pub fn de_u64(&mut self) -> (r: Result<u64, PakError>)
        requires
            old(self).wf(),
        ensures
            final(self).data@ == old(self).data@,
            final(self).wf(),
            match r {
                Ok(x) => dec_u64(old(self).remaining()) == Some((x, 8int)) && final(self).pos
                    == old(self).pos + 8,
                Err(e) => dec_u64(old(self).remaining()) is None && e == PakError::Eof && final(self).pos == old(self).pos,
            },
    {
        if self.data.len() - self.pos < 8 {
            return Err(PakError::Eof);
        }
        let s = slice_subrange(self.data.as_slice(), self.pos, self.pos + 8);
        let x = u64_from_le_bytes(s);
        proof {
            assert(old(self).remaining().subrange(0, 8) =~= s@);
        }
        self.pos = self.pos + 8;
        Ok(x)
    }

    pub fn de_i32(&mut self) -> (r: Result<i32, PakError>)
        requires
            old(self).wf(),
        ensures
            final(self).data@ == old(self).data@,
            final(self).wf(),
            match r {
                Ok(x) => dec_i32(old(self).remaining()) == Some((x, 4int)) && final(self).pos
                    == old(self).pos + 4,
                Err(e) => dec_i32(old(self).remaining()) is None && e == PakError::Eof && final(self).pos == old(self).pos,
            },
    {
        match self.de_u32() {
            Ok(x) => Ok(x as i32),
            Err(e) => Err(e),
        }
    }

    pub fn de_i64(&mut self) -> (r: Result<i64, PakError>)
        requires
            old(self).wf(),
        ensures
            final(self).data@ == old(self).data@,
            final(self).wf(),
            match r {
                Ok(x) => dec_i64(old(self).remaining()) == Some((x, 8int)) && final(self).pos
                    == old(self).pos + 8,
                Err(e) => dec_i64(old(self).remaining()) is None && e == PakError::Eof && final(self).pos == old(self).pos,
            },
    {
        match self.de_u64() {
            Ok(x) => Ok(x as i64),
            Err(e) => Err(e),
        }
    }

    pub fn de_b32(&mut self) -> (r: Result<bool, PakError>)
        requires
            old(self).wf(),
        ensures
            final(self).data@ == old(self).data@,
            final(self).wf(),
            match r {
                Ok(x) => dec_b32(old(self).remaining()) == Some((x, 4int)) && final(self).pos
                    == old(self).pos + 4,
                Err(e) => dec_b32(old(self).remaining()) is None && e == PakError::Eof && final(self).pos == old(self).pos,
            },
    {
        match self.de_u32() {
            Ok(x) => Ok(x != 0),
            Err(e) => Err(e),
        }
    }

    /// Reads exactly `n` bytes from the cursor.
    pub fn read_exact(&mut self, n: usize) -> (r: Result<Vec<u8>, PakError>)
        requires
            old(self).wf(),
        ensures
            final(self).data@ == old(self).data@,
            final(self).wf(),
            match r {
                Ok(v) => old(self).remaining().len() >= n && v@ == old(self).remaining().subrange(
                    0,
                    n as int,
                ) && final(self).pos == old(self).pos + n,
                Err(e) => old(self).remaining().len() < n && e == PakError::Eof && final(self).pos
                    == old(self).pos,
            },
    {
        if self.data.len() - self.pos < n {
            return Err(PakError::Eof);
        }
        let s = slice_subrange(self.data.as_slice(), self.pos, self.pos + n);
        let v = slice_to_vec(s);
        proof {
            assert(old(self).remaining().subrange(0, n as int) =~= v@);
        }
        self.pos = self.pos + n;
        Ok(v)
    }
}


/// Relies on std's String::from_utf8: it succeeds exactly on valid UTF-8 and
/// the returned string's characters are the decoding of the input bytes.
#[verifier::external_body]
pub(crate) fn string_from_utf8(b: Vec<u8>) -> (r: Result<String, PakError>)
    ensures
        match r {
            Ok(s) => valid_utf8(b@) && s@ == decode_utf8(b@),
            Err(e) => !valid_utf8(b@) && e == PakError::Other,
        },
{
    match String::from_utf8(b) {
        Ok(s) => Ok(s),
        Err(_) => Err(PakError::Other),
    }
}

impl ArchiveReader {
    /// Reads a length-prefixed NUL-terminated string.
    pub fn de_str(&mut self) -> (r: Result<String, PakError>)
        requires
            old(self).wf(),
        ensures
            final(self).data@ == old(self).data@,
            final(self).wf(),
            match r {
                Ok(s) => dec_str(old(self).remaining()) == Some(
                    (s@, final(self).pos - old(self).pos),
                ) && final(self).pos >= old(self).pos,
                Err(e) => dec_str(old(self).remaining()) is None && (e == PakError::Eof || e
                    == PakError::Other),
            },
    {
        let ghost s0 = old(self).remaining();
        let l = match self.de_u32() {
            Ok(x) => x,
            Err(e) => { return Err(e) },
        };
        if l == 0 {
            return Err(PakError::Other);
        }
        proof {
            assert(self.remaining() =~= s0.skip(4));
        }
        let mut bytes = match self.read_exact(l as usize) {
            Ok(v) => v,
            Err(e) => {
                proof {
                    assert(s0.len() < 4 + l);
                }
                return Err(e)
            },
        };
        proof {
            assert(bytes@ =~= s0.subrange(4, 4 + l as int));
        }
        let last = bytes[(l - 1) as usize];
        if last != 0 {
            return Err(PakError::Other);
        }
        let _ = bytes.pop();
        proof {
            assert(bytes@ =~= s0.subrange(4, 4 + l as int - 1));
        }
        match string_from_utf8(bytes) {
            Ok(st) => {
                proof {
                    assert(dec_str(s0) == Some((st@, 4 + l as int)));
                }
                Ok(st)
            },
            Err(e) => Err(e),
        }
    }
}

} // verus!
