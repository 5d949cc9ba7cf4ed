//! Sequential byte cursor: a growable write buffer and a positioned reader,
//! with unsigned LEB128 varints as the one multi-byte integer encoding.

use vstd::prelude::*;

use crate::error::Error;

verus! {

/// Unsigned LEB128 encoding of `n`: seven low bits per byte, least
/// significant group first, high bit set on every byte but the last.
pub open spec fn varu32_bytes(n: nat) -> Seq<u8>
    decreases n,
{
    if n < 128 {
        seq![n as u8]
    } else {
        seq![(128 + n % 128) as u8] + varu32_bytes(n / 128)
    }
}

/// Reads one unsigned LEB128 integer from the front of `s`: the value and
/// how many bytes it took, or `None` when `s` ends inside the varint.
pub open spec fn parse_varu32(s: Seq<u8>) -> Option<(nat, nat)>
    decreases s.len(),
{
    if s.len() == 0 {
        None
    } else if s[0] < 128 {
        Some((s[0] as nat, 1))
    } else {
        match parse_varu32(s.skip(1)) {
            None => None,
            Some((m, k)) => Some((((s[0] - 128) + 128 * m) as nat, (k + 1) as nat)),
        }
    }
}

/// A varint takes at least one byte.
pub proof fn lemma_varu32_len(n: nat)
    ensures
        varu32_bytes(n).len() >= 1,
    decreases n,
{
    if n >= 128 {
        lemma_varu32_len(n / 128);
    }
}

/// Parsing inverts encoding, whatever bytes follow the varint.
pub proof fn lemma_varu32_round_trip(n: nat, rest: Seq<u8>)
    ensures
        parse_varu32(varu32_bytes(n) + rest) == Some((n, varu32_bytes(n).len())),
    decreases n,
{
    let s = varu32_bytes(n) + rest;
    if n < 128 {
        assert(s[0] == n as u8);
    } else {
        lemma_varu32_round_trip(n / 128, rest);
        assert(s.skip(1) =~= varu32_bytes(n / 128) + rest);
        assert(s[0] == (128 + n % 128) as u8);
        assert(n % 128 < 128);
        assert((s[0] - 128) as nat == n % 128);
        assert(n % 128 + 128 * (n / 128) == n) by {
            vstd::arithmetic::div_mod::lemma_fundamental_div_mod(n as int, 128);
        }
        lemma_varu32_len(n / 128);
        assert(varu32_bytes(n).len() == 1 + varu32_bytes(n / 128).len());
    }
}

/// Growable write buffer: the write side of the byte cursor.
pub struct Writer {
    pub buf: Vec<u8>,
}

impl Writer {
    pub fn new() -> (w: Writer)
        ensures
            w.buf@ == Seq::<u8>::empty(),
    {
        Writer { buf: Vec::new() }
    }

    /// Hands the written bytes over to the caller.
    pub fn into_vec(self) -> (r: Vec<u8>)
        ensures
            r@ == self.buf@,
    {
        self.buf
    }

    pub fn write_u8(&mut self, b: u8)
        ensures
            final(self).buf@ == old(self).buf@ + seq![b],
    {
        self.buf.push(b);
        assert(self.buf@ =~= old(self).buf@ + seq![b]);
    }

    pub fn write_bytes(&mut self, bytes: &Vec<u8>)
        ensures
            final(self).buf@ == old(self).buf@ + bytes@,
    {
        self.buf.extend_from_slice(bytes.as_slice());
    }

    pub fn write_varuint32(&mut self, x: u32)
        ensures
            final(self).buf@ == old(self).buf@ + varu32_bytes(x as nat),
    {
        let mut v: u32 = x;
        while v >= 128
            invariant
                old(self).buf@ + varu32_bytes(x as nat) == self.buf@ + varu32_bytes(v as nat),
            decreases v,
        {
            let b: u8 = (128 + v % 128) as u8;
            self.buf.push(b);
            assert(self.buf@ + varu32_bytes((v / 128) as nat) =~= old(self).buf@ + varu32_bytes(
                x as nat,
            ));
            v = v / 128;
        }
        self.buf.push(v as u8);
        assert(varu32_bytes(v as nat) == seq![v as u8]);
        assert(self.buf@ =~= old(self).buf@ + varu32_bytes(x as nat));
    }
}

/// Positioned reader over a byte buffer: the read side of the byte cursor.
pub struct Reader {
    pub buf: Vec<u8>,
    pub pos: usize,
}

impl Reader {
    /// The position never points past the end of the buffer.
    pub open spec fn wf(&self) -> bool {
        self.pos <= self.buf@.len()
    }

    /// The bytes not yet consumed.
    pub open spec fn remaining(&self) -> Seq<u8> {
        self.buf@.skip(self.pos as int)
    }

    pub fn new(buf: Vec<u8>) -> (r: Reader)
        ensures
            r.wf(),
            r.remaining() == buf@,
    {
        let r = Reader { buf, pos: 0 };
        assert(r.remaining() =~= r.buf@);
        r
    }

    pub fn read_u8(&mut self) -> (r: Result<u8, Error>)
        requires
            old(self).wf(),
        ensures
            final(self).wf(),
            final(self).buf == old(self).buf,
            match r {
                Ok(b) => {
                    &&& old(self).remaining().len() > 0
                    &&& b == old(self).remaining()[0]
                    &&& final(self).pos == old(self).pos + 1
                    &&& final(self).remaining() == old(self).remaining().skip(1)
                },
                Err(e) => {
                    &&& e == Error::Truncated
                    &&& old(self).remaining().len() == 0
                    &&& final(self).pos == old(self).pos
                },
            },
    {
        if self.pos >= self.buf.len() {
            return Err(Error::Truncated);
        }
        let b = self.buf[self.pos];
        self.pos = self.pos + 1;
        assert(self.remaining() =~= old(self).remaining().skip(1));
        Ok(b)
    }

    /// Reads one unsigned LEB128 integer, rejecting values that do not fit
    /// in 32 bits.
    pub fn read_varuint32(&mut self) -> (r: Result<u32, Error>)
        requires
            old(self).wf(),
        ensures
            final(self).wf(),
            final(self).buf == old(self).buf,
            match r {
                Ok(v) => match parse_varu32(old(self).remaining()) {
                    Some((n, k)) => n == v as nat && final(self).pos == old(self).pos + k,
                    None => false,
                },
                Err(Error::Truncated) => parse_varu32(old(self).remaining()) is None,
                Err(Error::BadVarint) => match parse_varu32(old(self).remaining()) {
                    Some((n, k)) => n >= 0x1_0000_0000,
                    None => false,
                },
                Err(_) => false,
            },
        decreases self.buf@.len() - self.pos,
    {
        if self.pos >= self.buf.len() {
            return Err(Error::Truncated);
        }
        let b = self.buf[self.pos];
        self.pos = self.pos + 1;
        assert(self.remaining() =~= old(self).remaining().skip(1));
        if b < 128 {
            return Ok(b as u32);
        }
        let tail = self.read_varuint32();
        match tail {
            Err(e) => Err(e),
            Ok(m) => {
                if m >= 0x0200_0000 {
                    // 128 * m alone is at least 2^32
                    return Err(Error::BadVarint);
                }
                let v: u32 = (b - 128) as u32 + 128 * m;
                Ok(v)
            },
        }
    }

    /// Reads `n` raw bytes.
    pub fn read_bytes(&mut self, n: u32) -> (r: Result<Vec<u8>, Error>)
        requires
            old(self).wf(),
        ensures
            final(self).wf(),
            final(self).buf == old(self).buf,
            match r {
                Ok(v) => {
                    &&& old(self).remaining().len() >= n
                    &&& v@ == old(self).remaining().take(n as int)
                    &&& final(self).pos == old(self).pos + n
                },
                Err(e) => {
                    &&& e == Error::Truncated
                    &&& old(self).remaining().len() < n
                    &&& final(self).pos == old(self).pos
                },
            },
    {
        let blen: usize = self.buf.len();
        if n as usize > blen - self.pos {
            return Err(Error::Truncated);
        }
        let mut v: Vec<u8> = Vec::new();
        let mut i: usize = 0;
        while i < n as usize
            invariant
                self == old(self),
                self.wf(),
                i <= n,
                blen == self.buf@.len(),
                n <= blen - self.pos,
                v@ == old(self).remaining().take(i as int),
            decreases n as int - i,
        {
            v.push(self.buf[self.pos + i]);
            assert(v@ =~= old(self).remaining().take(i + 1 as int));
            i = i + 1;
        }
        self.pos = self.pos + n as usize;
        Ok(v)
    }
}

} // verus!
