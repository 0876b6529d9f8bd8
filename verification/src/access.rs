use vstd::prelude::*;

verus! {

pub type Timestamp = u64;
pub type Key = u64;
pub type Size = u32;
pub type Ttl = u32;

/// A malformed binary trace record.
#[derive(Debug, Clone, Copy, PartialEq, Eq, Structural)]
pub enum TraceError {
    /// The record is shorter than the fixed record length.
    ShortRecord,
    /// The command byte is neither a get nor a set.
    InvalidCommandByte,
}

#[derive(Debug, Clone, Copy, PartialEq, Eq, Structural)]
pub enum Command {
    Get,
    Put,
}

/// An individual access in a cache access trace.
#[derive(Debug, Clone)]
pub struct Access {
    pub timestamp: Timestamp,
    pub command: Command,
    pub key: Key,
    pub size: Size,
    pub ttl: Option<Ttl>,
}

/// The value of `len` bytes of `s` starting at `off`, little endian.
pub open spec fn le_bytes_value(s: Seq<u8>, off: int, len: int) -> int
    decreases len,
{
    if len <= 0 {
        0
    } else {
        s[off] + 256 * le_bytes_value(s, off + 1, len - 1)
    }
}

pub open spec fn pow256(n: nat) -> int
    decreases n,
{
    if n == 0 {
        1
    } else {
        256 * pow256((n - 1) as nat)
    }
}

impl Command {
    pub open spec fn byte_value(self) -> u8 {
        match self {
            Command::Get => 0,
            Command::Put => 1,
        }
    }

    /// Decodes a command byte; bytes other than 0 and 1 are invalid.
    pub fn from_byte(byte: u8) -> (r: Result<Command, TraceError>)
        ensures
            r == if byte == 0 {
                Ok::<Command, TraceError>(Command::Get)
            } else if byte == 1 {
                Ok::<Command, TraceError>(Command::Put)
            } else {
                Err::<Command, TraceError>(TraceError::InvalidCommandByte)
            },
    {
        match byte {
            0 => Ok(Command::Get),
            1 => Ok(Command::Put),
            _ => Err(TraceError::InvalidCommandByte),
        }
    }

    pub fn as_byte(&self) -> (r: u8)
        ensures
            r == self.byte_value(),
    {
        match self {
            Command::Get => 0,
            Command::Put => 1,
        }
    }
}

impl Access {
    /// Returns `true` if the access is a GET and has a non-zero size.
    pub fn is_valid_self_populating(&self) -> (r: bool)
        ensures
            r == (self.command == Command::Get && self.size > 0),
    {
        self.command == Command::Get && self.size > 0
    }

    /// The fixed length of one binary trace record.
    pub fn chunk_size() -> (r: usize)
        ensures
            r == 25,
    {
        25
    }

    /// Whether a record's fields match the first 25 bytes of `s`.
    pub open spec fn matches_chunk(self, s: Seq<u8>) -> bool {
        &&& self.timestamp == le_bytes_value(s, 0, 8)
        &&& self.command.byte_value() == s[8]
        &&& self.key == le_bytes_value(s, 9, 8)
        &&& self.size == le_bytes_value(s, 17, 4)
        &&& self.ttl == if le_bytes_value(s, 21, 4) == 0 {
            Option::<Ttl>::None
        } else {
            Some(le_bytes_value(s, 21, 4) as Ttl)
        }
    }

    /// Decodes one fixed-length little-endian trace record.
    pub fn from_chunk(buf: &[u8]) -> (r: Result<Access, TraceError>)
        ensures
            buf@.len() < 25 ==> r == Err::<Access, TraceError>(TraceError::ShortRecord),
            buf@.len() >= 25 && buf@[8] != 0 && buf@[8] != 1 ==> r == Err::<
                Access,
                TraceError,
            >(TraceError::InvalidCommandByte),
            buf@.len() >= 25 && (buf@[8] == 0 || buf@[8] == 1) ==> {
                &&& r is Ok
                &&& r->Ok_0.matches_chunk(buf@)
            },
    {
        if buf.len() < 25 {
            return Err(TraceError::ShortRecord);
        }
        let timestamp = read_le_u64(buf, 0);
        let command = Command::from_byte(buf[8])?;
        let key = read_le_u64(buf, 9);
        let size = read_le_u32(buf, 17);
        let ttl = match read_le_u32(buf, 21) {
            0 => None,
            value => Some(value),
        };
        Ok(Access { timestamp, command, key, size, ttl })
    }

    /// Encodes the access as one fixed-length little-endian record.
    /// A `ttl` of `Some(0)` is written as the absent-TTL marker, so it
    /// decodes as `None`.
    pub fn as_chunk(&self) -> (r: Vec<u8>)
        ensures
            r@.len() == 25,
            (Access {
                ttl: if self.ttl == Some(0u32) {
                    None
                } else {
                    self.ttl
                },
                ..*self
            }).matches_chunk(r@),
    {
        let mut buf: Vec<u8> = Vec::new();
        push_le_u64(&mut buf, self.timestamp);
        let ghost s1 = buf@;
        buf.push(self.command.as_byte());
        let ghost s2 = buf@;
        push_le_u64(&mut buf, self.key);
        let ghost s3 = buf@;
        push_le_u32(&mut buf, self.size);
        let ghost s4 = buf@;
        let ttl_value: u32 = match self.ttl {
            Some(v) => v,
            None => 0,
        };
        push_le_u32(&mut buf, ttl_value);
        proof {
            lemma_le_bytes_agree(s1, buf@, 0, 8);
            lemma_le_bytes_agree(s3, buf@, 9, 8);
            lemma_le_bytes_agree(s4, buf@, 17, 4);
        }
        buf
    }
}

/// Decoding is a function of the record bytes: two accesses that match
/// the same chunk agree on every field.  Together with the contracts of
/// `as_chunk` and `from_chunk` this pins the encode/decode round trip.
pub proof fn lemma_matches_chunk_functional(a1: Access, a2: Access, s: Seq<u8>)
    requires
        a1.matches_chunk(s),
        a2.matches_chunk(s),
    ensures
        a1.timestamp == a2.timestamp,
        a1.command == a2.command,
        a1.key == a2.key,
        a1.size == a2.size,
        a1.ttl == a2.ttl,
{
    assert(a1.command.byte_value() == a2.command.byte_value());
    if a1.command.byte_value() == 0 {
        assert(a1.command == Command::Get && a2.command == Command::Get);
    } else {
        assert(a1.command == Command::Put && a2.command == Command::Put);
    }
}

proof fn lemma_pow256_values()
    ensures
        pow256(0) == 1,
        pow256(1) == 0x100,
        pow256(2) == 0x10000,
        pow256(3) == 0x1000000,
        pow256(4) == 0x100000000,
        pow256(5) == 0x10000000000,
        pow256(6) == 0x1000000000000,
        pow256(7) == 0x100000000000000,
        pow256(8) == 0x10000000000000000,
{
    reveal_with_fuel(pow256, 9);
}

proof fn lemma_pow256_monotone(m: nat, n: nat)
    requires
        m <= n,
        n <= 8,
    ensures
        pow256(m) <= pow256(n),
        pow256(n) <= 0x10000000000000000,
    decreases n,
{
    reveal_with_fuel(pow256, 9);
    if m < n {
        lemma_pow256_monotone(m, (n - 1) as nat);
    }
}

/// `le_bytes_value` only reads the bytes of the addressed range.
proof fn lemma_le_bytes_agree(s1: Seq<u8>, s2: Seq<u8>, off: int, len: int)
    requires
        0 <= off,
        off + len <= s1.len(),
        off + len <= s2.len(),
        forall|j: int| off <= j < off + len ==> s1[j] == s2[j],
    ensures
        le_bytes_value(s1, off, len) == le_bytes_value(s2, off, len),
    decreases len,
{
    if len > 0 {
        lemma_le_bytes_agree(s1, s2, off + 1, len - 1);
    }
}

fn read_le_u64(buf: &[u8], off: usize) -> (r: u64)
    requires
        off + 8 <= buf@.len(),
    ensures
        r == le_bytes_value(buf@, off as int, 8),
{
    let n: usize = buf.len();
    let mut value: u64 = 0;
    let mut i: usize = 8;
    while i > 0
        invariant
            i <= 8,
            off + 8 <= n,
            n == buf@.len(),
            value < pow256((8 - i) as nat),
            value == le_bytes_value(buf@, off + i, (8 - i) as int),
        decreases i,
    {
        proof {
            lemma_pow256_values();
            lemma_pow256_monotone((8 - i) as nat, 7);
        }
        i = i - 1;
        value = value * 256 + (buf[off + i] as u64);
    }
    value
}

fn read_le_u32(buf: &[u8], off: usize) -> (r: u32)
    requires
        off + 4 <= buf@.len(),
    ensures
        r == le_bytes_value(buf@, off as int, 4),
{
    let n: usize = buf.len();
    let mut value: u32 = 0;
    let mut i: usize = 4;
    while i > 0
        invariant
            i <= 4,
            off + 4 <= n,
            n == buf@.len(),
            value < pow256((4 - i) as nat),
            value == le_bytes_value(buf@, off + i, (4 - i) as int),
        decreases i,
    {
        proof {
            lemma_pow256_values();
            lemma_pow256_monotone((4 - i) as nat, 3);
        }
        i = i - 1;
        value = value * 256 + (buf[off + i] as u32);
    }
    value
}

/// Appending a byte extends the addressed range by one position.
proof fn lemma_le_bytes_append(s: Seq<u8>, b: u8, off: int, len: int)
    requires
        0 <= off,
        0 <= len,
        off + len == s.len(),
    ensures
        le_bytes_value(s.push(b), off, len + 1) == le_bytes_value(s, off, len) + pow256(
            len as nat,
        ) * b,
    decreases len,
{
    lemma_le_bytes_agree(s.push(b), s, off, len);
    if len == 0 {
        assert(s.push(b)[off] == b);
        assert(pow256(0) == 1);
        assert(pow256(len as nat) * b == b) by (nonlinear_arith)
            requires
                len == 0,
                pow256(len as nat) == 1,
        {}
        assert(le_bytes_value(s.push(b), off + 1, 0) == 0);
        assert(le_bytes_value(s.push(b), off, len + 1) == b);
        assert(le_bytes_value(s, off, len) == 0);
    } else {
        lemma_le_bytes_append(s, b, off + 1, len - 1);
        assert(s.push(b)[off] == s[off]);
        assert(le_bytes_value(s.push(b), off, len + 1) == s[off] + 256 * le_bytes_value(
            s.push(b),
            off + 1,
            len,
        ));
        assert(pow256(len as nat) == 256 * pow256((len - 1) as nat));
        assert(le_bytes_value(s.push(b), off, len + 1) == le_bytes_value(s, off, len) + pow256(
            len as nat,
        ) * b) by (nonlinear_arith)
            requires
                le_bytes_value(s.push(b), off, len + 1) == s[off] + 256 * le_bytes_value(
                    s.push(b),
                    off + 1,
                    len,
                ),
                le_bytes_value(s.push(b), off + 1, len) == le_bytes_value(s, off + 1, len - 1)
                    + pow256((len - 1) as nat) * b,
                le_bytes_value(s, off, len) == s[off] + 256 * le_bytes_value(s, off + 1, len - 1),
                pow256(len as nat) == 256 * pow256((len - 1) as nat),
        {}
    }
}

fn push_le_u64(buf: &mut Vec<u8>, value: u64)
    ensures
        final(buf)@.len() == old(buf)@.len() + 8,
        forall|j: int| 0 <= j < old(buf)@.len() ==> final(buf)@[j] == old(buf)@[j],
        le_bytes_value(final(buf)@, old(buf)@.len() as int, 8) == value,
{
    let ghost start = buf@.len() as int;
    let mut i: usize = 0;
    let mut v: u64 = value;
    proof {
        lemma_pow256_values();
    }
    while i < 8
        invariant
            i <= 8,
            start == old(buf)@.len(),
            buf@.len() == start + i,
            forall|j: int| 0 <= j < start ==> buf@[j] == old(buf)@[j],
            le_bytes_value(buf@, start, i as int) + pow256(i as nat) * v == value,
            v < pow256((8 - i) as nat),
        decreases 8 - i,
    {
        let b: u8 = (v % 256) as u8;
        let ghost prev = buf@;
        buf.push(b);
        proof {
            lemma_le_bytes_append(prev, b, start, i as int);
            assert(v == 256 * (v / 256) + b);
            vstd::arithmetic::mul::lemma_mul_is_distributive_add(
                pow256(i as nat),
                256 * (v / 256),
                b as int,
            );
            vstd::arithmetic::mul::lemma_mul_is_associative(pow256(i as nat), 256, (v / 256) as int);
            vstd::arithmetic::mul::lemma_mul_is_commutative(pow256(i as nat), 256);
        }
        v = v / 256;
        i = i + 1;
    }
}

fn push_le_u32(buf: &mut Vec<u8>, value: u32)
    ensures
        final(buf)@.len() == old(buf)@.len() + 4,
        forall|j: int| 0 <= j < old(buf)@.len() ==> final(buf)@[j] == old(buf)@[j],
        le_bytes_value(final(buf)@, old(buf)@.len() as int, 4) == value,
{
    let ghost start = buf@.len() as int;
    let mut i: usize = 0;
    let mut v: u32 = value;
    proof {
        lemma_pow256_values();
    }
    while i < 4
        invariant
            i <= 4,
            start == old(buf)@.len(),
            buf@.len() == start + i,
            forall|j: int| 0 <= j < start ==> buf@[j] == old(buf)@[j],
            le_bytes_value(buf@, start, i as int) + pow256(i as nat) * v == value,
            v < pow256((4 - i) as nat),
        decreases 4 - i,
    {
        let b: u8 = (v % 256) as u8;
        let ghost prev = buf@;
        buf.push(b);
        proof {
            lemma_le_bytes_append(prev, b, start, i as int);
            assert(v == 256 * (v / 256) + b);
            vstd::arithmetic::mul::lemma_mul_is_distributive_add(
                pow256(i as nat),
                256 * (v / 256),
                b as int,
            );
            vstd::arithmetic::mul::lemma_mul_is_associative(pow256(i as nat), 256, (v / 256) as int);
            vstd::arithmetic::mul::lemma_mul_is_commutative(pow256(i as nat), 256);
        }
        v = v / 256;
        i = i + 1;
    }
}

} // verus!
