//! Read cursor over a byte buffer: typed big-endian readers, variable-length
//! integer readers, and byte transfer between cursors.

use vstd::prelude::*;

use crate::bytespec::{be_value, lemma_be_value_bound, lemma_var_scan_bound, var_scan};
use vstd::utf8::{decode_utf8, valid_utf8};

verus! {

/// Failure of a single cursor read. Reads are atomic: a failed read leaves the
/// cursor where it was.
#[derive(Clone, Copy, Debug, PartialEq, Eq, Structural)]
pub enum CursorError {
    /// The read would pass the end of the buffer.
    EndOfBuffer,
    /// A string read found bytes that are not valid UTF-8.
    InvalidUtf8,
}

/// A growable byte buffer with a read position. Invariant: `pos() <= len`.
pub struct ByteCursor {
    data: Vec<u8>,
    rpos: usize,
}

impl ByteCursor {
    /// The whole underlying byte sequence.
    pub closed spec fn bytes(&self) -> Seq<u8> {
        self.data@
    }

    /// The current read position.
    pub closed spec fn pos(&self) -> int {
        self.rpos as int
    }

    pub open spec fn wf(&self) -> bool {
        0 <= self.pos() <= self.bytes().len()
    }

    /// Bytes not yet consumed.
    pub open spec fn remaining(&self) -> int {
        self.bytes().len() - self.pos()
    }

    pub fn new() -> (r: ByteCursor)
        ensures
            r.wf(),
            r.bytes() == Seq::<u8>::empty(),
            r.pos() == 0,
    {
        ByteCursor { data: Vec::new(), rpos: 0 }
    }

    pub fn from_slice(b: &[u8]) -> (r: ByteCursor)
        ensures
            r.wf(),
            r.bytes() == b@,
            r.pos() == 0,
    {
        ByteCursor { data: vstd::slice::slice_to_vec(b), rpos: 0 }
    }

    pub fn from_vec(b: Vec<u8>) -> (r: ByteCursor)
        ensures
            r.wf(),
            r.bytes() == b@,
            r.pos() == 0,
    {
        ByteCursor { data: b, rpos: 0 }
    }

    pub fn len(&self) -> (r: usize)
        ensures
            r == self.bytes().len(),
    {
        self.data.len()
    }

    pub fn get_rpos(&self) -> (r: usize)
        ensures
            r == self.pos(),
    {
        self.rpos
    }

    pub fn set_rpos(&mut self, p: usize)
        requires
            old(self).wf(),
            p <= old(self).bytes().len(),
        ensures
            final(self).wf(),
            final(self).bytes() == old(self).bytes(),
            final(self).pos() == p,
    {
        self.rpos = p;
    }

    pub fn bytes_available(&self) -> (r: usize)
        requires
            self.wf(),
        ensures
            r == self.remaining(),
    {
        self.data.len() - self.rpos
    }

    /// Appends bytes at the end of the buffer without moving the read position.
    pub fn write_bytes(&mut self, mut src: Vec<u8>)
        requires
            old(self).wf(),
        ensures
            final(self).wf(),
            final(self).bytes() == old(self).bytes() + src@,
            final(self).pos() == old(self).pos(),
    {
        self.data.append(&mut src);
    }

    /// Consumes `n` bytes and hands them out.
    pub fn read_bytes(&mut self, n: usize) -> (r: Result<Vec<u8>, CursorError>)
        requires
            old(self).wf(),
        ensures
            final(self).wf(),
            final(self).bytes() == old(self).bytes(),
            if old(self).remaining() >= n {
                r matches Ok(v) && v@ == old(self).bytes().subrange(
                    old(self).pos(),
                    old(self).pos() + n,
                ) && final(self).pos() == old(self).pos() + n
            } else {
                r == Err::<Vec<u8>, CursorError>(CursorError::EndOfBuffer) && final(self).pos()
                    == old(self).pos()
            },
    {
        if self.data.len() - self.rpos < n {
            return Err(CursorError::EndOfBuffer);
        }
        let s = vstd::slice::slice_subrange(self.data.as_slice(), self.rpos, self.rpos + n);
        let v = vstd::slice::slice_to_vec(s);
        self.rpos = self.rpos + n;
        Ok(v)
    }

    /// Copies the next `n` bytes without consuming them.
    pub fn peek_bytes(&self, n: usize) -> (r: Vec<u8>)
        requires
            self.wf(),
            n <= self.remaining(),
        ensures
            r@ == self.bytes().subrange(self.pos(), self.pos() + n),
    {
        proof {
            assert(self.data@.len() == self.data.len());
        }
        let s = vstd::slice::slice_subrange(self.data.as_slice(), self.rpos, self.rpos + n);
        vstd::slice::slice_to_vec(s)
    }

    /// Reads `n` bytes from this cursor and appends them to `dst`. A count of
    /// zero means all remaining bytes; a count past the end transfers nothing.
    pub fn swap_bytes(&mut self, dst: &mut ByteCursor, n: usize)
        requires
            old(self).wf(),
            old(dst).wf(),
        ensures
            final(self).wf(),
            final(dst).wf(),
            final(self).bytes() == old(self).bytes(),
            final(dst).pos() == old(dst).pos(),
            ({
                let take = if n == 0 {
                    old(self).remaining()
                } else {
                    n as int
                };
                if take <= old(self).remaining() {
                    &&& final(self).pos() == old(self).pos() + take
                    &&& final(dst).bytes() == old(dst).bytes() + old(self).bytes().subrange(
                        old(self).pos(),
                        old(self).pos() + take,
                    )
                } else {
                    &&& final(self).pos() == old(self).pos()
                    &&& final(dst).bytes() == old(dst).bytes()
                }
            }),
    {
        let avail = self.data.len() - self.rpos;
        let take = if n == 0 {
            avail
        } else {
            n
        };
        if take > avail {
            return ;
        }
        match self.read_bytes(take) {
            Ok(v) => {
                dst.write_bytes(v);
            },
            Err(_) => {
                proof {
                    assert(false);
                }
            },
        }
    }

    pub fn read_u8(&mut self) -> (r: Result<u8, CursorError>)
        requires
            old(self).wf(),
        ensures
            final(self).wf(),
            final(self).bytes() == old(self).bytes(),
            if old(self).remaining() >= 1 {
                r == Ok::<u8, CursorError>(old(self).bytes()[old(self).pos()]) && final(self).pos()
                    == old(self).pos() + 1
            } else {
                r == Err::<u8, CursorError>(CursorError::EndOfBuffer) && final(self).pos() == old(self).pos()
            },
    {
        if self.rpos < self.data.len() {
            let b = self.data[self.rpos];
            self.rpos = self.rpos + 1;
            Ok(b)
        } else {
            Err(CursorError::EndOfBuffer)
        }
    }

    pub fn read_i8(&mut self) -> (r: Result<i8, CursorError>)
        requires
            old(self).wf(),
        ensures
            final(self).wf(),
            final(self).bytes() == old(self).bytes(),
            if old(self).remaining() >= 1 {
                r == Ok::<i8, CursorError>(old(self).bytes()[old(self).pos()] as i8) && final(self).pos() == old(self).pos() + 1
            } else {
                r == Err::<i8, CursorError>(CursorError::EndOfBuffer) && final(self).pos() == old(self).pos()
            },
    {
        match self.read_u8() {
            Ok(b) => Ok(b as i8),
            Err(e) => Err(e),
        }
    }

    /// Big-endian readers. Each consumes the stated width or fails whole.
    pub fn read_u16(&mut self) -> (r: Result<u16, CursorError>)
        requires
            old(self).wf(),
        ensures
            final(self).wf(),
            final(self).bytes() == old(self).bytes(),
            if old(self).remaining() >= 2 {
                r == Ok::<u16, CursorError>(
                    be_value(old(self).bytes(), old(self).pos(), 2) as u16,
                ) && final(self).pos() == old(self).pos() + 2
            } else {
                r == Err::<u16, CursorError>(CursorError::EndOfBuffer) && final(self).pos() == old(self).pos()
            },
    {
        if self.data.len() - self.rpos < 2 {
            return Err(CursorError::EndOfBuffer);
        }
        let b0 = self.data[self.rpos];
        let b1 = self.data[self.rpos + 1];
        proof {
            reveal_with_fuel(be_value, 3);
        }
        self.rpos = self.rpos + 2;
        Ok(b0 as u16 * 256 + b1 as u16)
    }

    pub fn read_i16(&mut self) -> (r: Result<i16, CursorError>)
        requires
            old(self).wf(),
        ensures
            final(self).wf(),
            final(self).bytes() == old(self).bytes(),
            if old(self).remaining() >= 2 {
                r == Ok::<i16, CursorError>(
                    be_value(old(self).bytes(), old(self).pos(), 2) as u16 as i16,
                ) && final(self).pos() == old(self).pos() + 2
            } else {
                r == Err::<i16, CursorError>(CursorError::EndOfBuffer) && final(self).pos() == old(self).pos()
            },
    {
        match self.read_u16() {
            Ok(v) => Ok(v as i16),
            Err(e) => Err(e),
        }
    }

    pub fn read_u32(&mut self) -> (r: Result<u32, CursorError>)
        requires
            old(self).wf(),
        ensures
            final(self).wf(),
            final(self).bytes() == old(self).bytes(),
            if old(self).remaining() >= 4 {
                r == Ok::<u32, CursorError>(
                    be_value(old(self).bytes(), old(self).pos(), 4) as u32,
                ) && final(self).pos() == old(self).pos() + 4
            } else {
                r == Err::<u32, CursorError>(CursorError::EndOfBuffer) && final(self).pos() == old(self).pos()
            },
    {
        if self.data.len() - self.rpos < 4 {
            return Err(CursorError::EndOfBuffer);
        }
        let b0 = self.data[self.rpos] as u32;
        let b1 = self.data[self.rpos + 1] as u32;
        let b2 = self.data[self.rpos + 2] as u32;
        let b3 = self.data[self.rpos + 3] as u32;
        proof {
            reveal_with_fuel(be_value, 5);
        }
        self.rpos = self.rpos + 4;
        Ok(((b0 * 256 + b1) * 256 + b2) * 256 + b3)
    }

    pub fn read_i32(&mut self) -> (r: Result<i32, CursorError>)
        requires
            old(self).wf(),
        ensures
            final(self).wf(),
            final(self).bytes() == old(self).bytes(),
            if old(self).remaining() >= 4 {
                r == Ok::<i32, CursorError>(
                    be_value(old(self).bytes(), old(self).pos(), 4) as u32 as i32,
                ) && final(self).pos() == old(self).pos() + 4
            } else {
                r == Err::<i32, CursorError>(CursorError::EndOfBuffer) && final(self).pos() == old(self).pos()
            },
    {
        match self.read_u32() {
            Ok(v) => Ok(v as i32),
            Err(e) => Err(e),
        }
    }

    pub fn read_u64(&mut self) -> (r: Result<u64, CursorError>)
        requires
            old(self).wf(),
        ensures
            final(self).wf(),
            final(self).bytes() == old(self).bytes(),
            if old(self).remaining() >= 8 {
                r == Ok::<u64, CursorError>(
                    be_value(old(self).bytes(), old(self).pos(), 8) as u64,
                ) && final(self).pos() == old(self).pos() + 8
            } else {
                r == Err::<u64, CursorError>(CursorError::EndOfBuffer) && final(self).pos() == old(self).pos()
            },
    {
        if self.data.len() - self.rpos < 8 {
            return Err(CursorError::EndOfBuffer);
        }
        let b0 = self.data[self.rpos] as u64;
        let b1 = self.data[self.rpos + 1] as u64;
        let b2 = self.data[self.rpos + 2] as u64;
        let b3 = self.data[self.rpos + 3] as u64;
        let b4 = self.data[self.rpos + 4] as u64;
        let b5 = self.data[self.rpos + 5] as u64;
        let b6 = self.data[self.rpos + 6] as u64;
        let b7 = self.data[self.rpos + 7] as u64;
        let acc = ((((((b0 * 256 + b1) * 256 + b2) * 256 + b3) * 256 + b4) * 256 + b5) * 256 + b6)
            * 256 + b7;
        proof {
            reveal_with_fuel(be_value, 9);
            lemma_be_value_bound(self.bytes(), self.pos(), 8);
        }
        self.rpos = self.rpos + 8;
        Ok(acc)
    }

    /// Scans a variable-length integer without moving the cursor: a helper
    /// shared by all the var readers.
    fn scan_var(data: &Vec<u8>, start: usize, max: u8) -> (r: Option<(u128, usize)>)
        requires
            start <= data@.len(),
            max <= 10,
        ensures
            match var_scan(data@, start as int, max as nat) {
                Some((v, n)) => r == Some((v as u128, n as usize)),
                None => r is None,
            },
            r matches Some((v, n)) ==> start + n <= data@.len() && n <= max,
        decreases max,
    {
        proof {
            lemma_var_scan_bound(data@, start as int, max as nat);
            crate::bytespec::lemma_pow128_values();
        }
        if max == 0 {
            Some((0, 0))
        } else if start >= data.len() {
            None
        } else {
            let b = data[start];
            let payload = (b % 128) as u128;
            if b < 128 || max == 1 {
                Some((payload, 1))
            } else {
                proof {
                    lemma_var_scan_bound(data@, start as int + 1, (max - 1) as nat);
                    crate::bytespec::lemma_pow128_increases((max - 1) as nat, 9);
                }
                match Self::scan_var(data, start + 1, max - 1) {
                    None => None,
                    Some((v, n)) => Some((payload + 128 * v, n + 1)),
                }
            }
        }
    }

    /// Variable-length integer, at most 5 bytes of 7 payload bits each,
    /// least-significant group first; the result is the low 32 accumulated
    /// bits. A fifth byte with its continuation bit still set ends the read
    /// ("too much data"), as the protocol's encoder never emits one.
    pub fn read_var_int(&mut self) -> (r: Result<u32, CursorError>)
        requires
            old(self).wf(),
        ensures
            final(self).wf(),
            final(self).bytes() == old(self).bytes(),
            match var_scan(old(self).bytes(), old(self).pos(), 5) {
                Some((v, n)) => r == Ok::<u32, CursorError>((v % 0x100000000) as u32) && final(self).pos() == old(self).pos() + n,
                None => r == Err::<u32, CursorError>(CursorError::EndOfBuffer) && final(self).pos()
                    == old(self).pos(),
            },
    {
        proof {
            lemma_var_scan_bound(self.bytes(), self.pos(), 5);
            crate::bytespec::lemma_pow128_values();
        }
        match Self::scan_var(&self.data, self.rpos, 5) {
            None => Err(CursorError::EndOfBuffer),
            Some((v, n)) => {
                proof {
                    assert(self.data@.len() == self.data.len());
                }
                self.rpos = self.rpos + n;
                Ok((v % 0x100000000) as u32)
            },
        }
    }

    /// The unsigned-host variant shares the wire encoding of `read_var_int`.
    pub fn read_var_uh_int(&mut self) -> (r: Result<u32, CursorError>)
        requires
            old(self).wf(),
        ensures
            final(self).wf(),
            final(self).bytes() == old(self).bytes(),
            match var_scan(old(self).bytes(), old(self).pos(), 5) {
                Some((v, n)) => r == Ok::<u32, CursorError>((v % 0x100000000) as u32) && final(self).pos() == old(self).pos() + n,
                None => r == Err::<u32, CursorError>(CursorError::EndOfBuffer) && final(self).pos()
                    == old(self).pos(),
            },
    {
        self.read_var_int()
    }

    /// Variable-length short, at most 3 bytes; the low 16 accumulated bits
    /// reinterpreted as a signed value (a value above 32767 comes out as
    /// that value minus 65536).
    pub fn read_var_short(&mut self) -> (r: Result<i16, CursorError>)
        requires
            old(self).wf(),
        ensures
            final(self).wf(),
            final(self).bytes() == old(self).bytes(),
            match var_scan(old(self).bytes(), old(self).pos(), 3) {
                Some((v, n)) => r == Ok::<i16, CursorError>((v % 0x10000) as u16 as i16) && final(self).pos() == old(self).pos() + n,
                None => r == Err::<i16, CursorError>(CursorError::EndOfBuffer) && final(self).pos()
                    == old(self).pos(),
            },
    {
        match self.read_var_uh_short() {
            Ok(v) => Ok(v as i16),
            Err(e) => Err(e),
        }
    }

    /// The unsigned-host variant of `read_var_short`: the low 16 accumulated
    /// bits unchanged.
    pub fn read_var_uh_short(&mut self) -> (r: Result<u16, CursorError>)
        requires
            old(self).wf(),
        ensures
            final(self).wf(),
            final(self).bytes() == old(self).bytes(),
            match var_scan(old(self).bytes(), old(self).pos(), 3) {
                Some((v, n)) => r == Ok::<u16, CursorError>((v % 0x10000) as u16) && final(self).pos() == old(self).pos() + n,
                None => r == Err::<u16, CursorError>(CursorError::EndOfBuffer) && final(self).pos()
                    == old(self).pos(),
            },
    {
        proof {
            lemma_var_scan_bound(self.bytes(), self.pos(), 3);
            crate::bytespec::lemma_pow128_values();
        }
        match Self::scan_var(&self.data, self.rpos, 3) {
            None => Err(CursorError::EndOfBuffer),
            Some((v, n)) => {
                proof {
                    assert(self.data@.len() == self.data.len());
                }
                self.rpos = self.rpos + n;
                Ok((v % 0x10000) as u16)
            },
        }
    }

    /// Variable-length long, at most 10 bytes; the low 64 accumulated bits.
    /// The first five bytes fill bits 0..34 and the rest fill the high bits,
    /// which matches splitting the value at bit 32 into a low and a high
    /// 32-bit half as the protocol's encoder does.
    pub fn read_var_long(&mut self) -> (r: Result<u64, CursorError>)
        requires
            old(self).wf(),
        ensures
            final(self).wf(),
            final(self).bytes() == old(self).bytes(),
            match var_scan(old(self).bytes(), old(self).pos(), 10) {
                Some((v, n)) => r == Ok::<u64, CursorError>(
                    (v % 18446744073709551616) as u64,
                ) && final(self).pos() == old(self).pos() + n,
                None => r == Err::<u64, CursorError>(CursorError::EndOfBuffer) && final(self).pos()
                    == old(self).pos(),
            },
    {
        proof {
            lemma_var_scan_bound(self.bytes(), self.pos(), 10);
            crate::bytespec::lemma_pow128_values();
        }
        match Self::scan_var(&self.data, self.rpos, 10) {
            None => Err(CursorError::EndOfBuffer),
            Some((v, n)) => {
                proof {
                    assert(self.data@.len() == self.data.len());
                }
                self.rpos = self.rpos + n;
                Ok((v % 18446744073709551616u128) as u64)
            },
        }
    }

    /// The unsigned-host variant shares the wire encoding of `read_var_long`.
    pub fn read_var_uh_long(&mut self) -> (r: Result<u64, CursorError>)
        requires
            old(self).wf(),
        ensures
            final(self).wf(),
            final(self).bytes() == old(self).bytes(),
            match var_scan(old(self).bytes(), old(self).pos(), 10) {
                Some((v, n)) => r == Ok::<u64, CursorError>(
                    (v % 18446744073709551616) as u64,
                ) && final(self).pos() == old(self).pos() + n,
                None => r == Err::<u64, CursorError>(CursorError::EndOfBuffer) && final(self).pos()
                    == old(self).pos(),
            },
    {
        self.read_var_long()
    }

    /// Length-prefixed string: a big-endian `u16` byte count, then that many
    /// bytes of UTF-8.
    pub fn read_utf(&mut self) -> (r: Result<String, CursorError>)
        requires
            old(self).wf(),
        ensures
            final(self).wf(),
            final(self).bytes() == old(self).bytes(),
            ({
                let s = old(self).bytes();
                let p = old(self).pos();
                let n = be_value(s, p, 2) as int;
                if old(self).remaining() >= 2 && old(self).remaining() - 2 >= n {
                    let body = s.subrange(p + 2, p + 2 + n);
                    if valid_utf8(body) {
                        r matches Ok(st) && st@ == decode_utf8(body) && final(self).pos() == p + 2
                            + n
                    } else {
                        r == Err::<String, CursorError>(CursorError::InvalidUtf8) && final(self).pos() == p
                    }
                } else {
                    r == Err::<String, CursorError>(CursorError::EndOfBuffer) && final(self).pos()
                        == p
                }
            }),
    {
        if self.data.len() - self.rpos < 2 {
            return Err(CursorError::EndOfBuffer);
        }
        let b0 = self.data[self.rpos];
        let b1 = self.data[self.rpos + 1];
        let n = b0 as usize * 256 + b1 as usize;
        proof {
            reveal_with_fuel(be_value, 3);
        }
        if self.data.len() - (self.rpos + 2) < n {
            return Err(CursorError::EndOfBuffer);
        }
        let s = vstd::slice::slice_subrange(
            self.data.as_slice(),
            self.rpos + 2,
            self.rpos + 2 + n,
        );
        let v = vstd::slice::slice_to_vec(s);
        match bytes_to_string(v) {
            Some(st) => {
                self.rpos = self.rpos + 2 + n;
                Ok(st)
            },
            None => Err(CursorError::InvalidUtf8),
        }
    }
}

/// Relies on `String::from_utf8`: it succeeds exactly on input that is valid
/// UTF-8 and decodes those bytes to their character sequence.
#[verifier::external_body]
fn bytes_to_string(v: Vec<u8>) -> (r: Option<String>)
    ensures
        r is Some <==> valid_utf8(v@),
        r matches Some(s) ==> s@ == decode_utf8(v@),
{
    match String::from_utf8(v) {
        Ok(s) => Some(s),
        Err(_) => None,
    }
}

} // verus!
