//! Account addresses: opaque 20-byte identifiers, carried on the wire as
//! `0x`-prefixed 40-hex-character strings.

use vstd::prelude::*;

verus! {

/// True for the ASCII bytes `0`-`9`, `a`-`f`, `A`-`F`.
pub open spec fn is_hex_digit(b: u8) -> bool {
    (0x30 <= b && b <= 0x39) || (0x61 <= b && b <= 0x66) || (0x41 <= b && b <= 0x46)
}

/// The numeric value of a hex digit byte.
pub open spec fn hex_val(b: u8) -> u8 {
    if 0x30 <= b && b <= 0x39 {
        (b - 0x30) as u8
    } else if 0x61 <= b && b <= 0x66 {
        (b - 0x61 + 10) as u8
    } else {
        (b - 0x41 + 10) as u8
    }
}

/// The lowercase hex digit byte for a value below 16.
pub open spec fn hex_char(n: u8) -> u8 {
    if n < 10 {
        (0x30 + n) as u8
    } else {
        (0x61 + n - 10) as u8
    }
}

/// The byte encoded at position `i` of the address whose hex spelling is `s`
/// (`s` includes the two-byte `0x` prefix).
pub open spec fn hex_byte_at(s: Seq<u8>, i: int) -> u8 {
    (hex_val(s[2 + 2 * i]) * 16 + hex_val(s[3 + 2 * i])) as u8
}

/// True when `s` spells an address: `0x` followed by exactly 40 hex digits.
pub open spec fn is_addr_hex(s: Seq<u8>) -> bool {
    &&& s.len() == 42
    &&& s[0] == 0x30u8
    &&& s[1] == 0x78u8
    &&& forall|i: int| 2 <= i < 42 ==> is_hex_digit(#[trigger] s[i])
}

/// A 20-byte account identifier. Its mathematical value is the byte sequence.
#[derive(Debug)]
pub struct Addr {
    pub bytes: Vec<u8>,
}

impl View for Addr {
    type V = Seq<u8>;

    open spec fn view(&self) -> Seq<u8> {
        self.bytes@
    }
}

impl Addr {
    /// A well-formed address holds exactly 20 bytes.
    pub open spec fn wf(&self) -> bool {
        self@.len() == 20
    }

    /// An equal copy of the address.
    pub fn duplicate(&self) -> (r: Addr)
        ensures
            r@ == self@,
    {
        let mut bytes: Vec<u8> = Vec::new();
        let mut i: usize = 0;
        while i < self.bytes.len()
            invariant
                0 <= i <= self.bytes.len(),
                bytes@ == self.bytes@.take(i as int),
            decreases self.bytes.len() - i,
        {
            bytes.push(self.bytes[i]);
            proof {
                assert(bytes@ =~= self.bytes@.take(i + 1 as int));
            }
            i = i + 1;
        }
        proof {
            assert(bytes@ =~= self.bytes@);
        }
        Addr { bytes }
    }

    /// Byte-for-byte equality of two addresses.
    pub fn same_as(&self, other: &Addr) -> (r: bool)
        ensures
            r <==> self@ == other@,
    {
        if self.bytes.len() != other.bytes.len() {
            proof {
                assert(self@.len() != other@.len());
            }
            return false;
        }
        let mut i: usize = 0;
        while i < self.bytes.len()
            invariant
                0 <= i <= self.bytes.len(),
                self.bytes@.len() == other.bytes@.len(),
                forall|j: int| 0 <= j < i ==> self.bytes@[j] == other.bytes@[j],
            decreases self.bytes.len() - i,
        {
            if self.bytes[i] != other.bytes[i] {
                proof {
                    assert(self@[i as int] != other@[i as int]);
                }
                return false;
            }
            i = i + 1;
        }
        proof {
            assert(self@ =~= other@);
        }
        true
    }
}

/// The value of one hex digit byte, or `None` when the byte is not a digit.
fn hex_val_of(b: u8) -> (r: Option<u8>)
    ensures
        r is Some <==> is_hex_digit(b),
        r is Some ==> r->0 == hex_val(b) && r->0 < 16,
{
    if 0x30 <= b && b <= 0x39 {
        Some(b - 0x30)
    } else if 0x61 <= b && b <= 0x66 {
        Some(b - 0x61 + 10)
    } else if 0x41 <= b && b <= 0x46 {
        Some(b - 0x41 + 10)
    } else {
        None
    }
}

/// Parses a `0x`-prefixed 40-hex-digit address. Returns `Some` exactly on
/// well-formed spellings, and then the decoded 20 bytes.
pub fn addr_from_hex(s: &[u8]) -> (r: Option<Addr>)
    ensures
        r is Some <==> is_addr_hex(s@),
        r is Some ==> {
            &&& r->0.wf()
            &&& forall|i: int| 0 <= i < 20 ==> r->0@[i] == hex_byte_at(s@, i)
        },
{
    if s.len() != 42 {
        return None;
    }
    if s[0] != 0x30 || s[1] != 0x78 {
        return None;
    }
    let mut bytes: Vec<u8> = Vec::new();
    let mut i: usize = 0;
    while i < 20
        invariant
            0 <= i <= 20,
            s@.len() == 42,
            s@[0] == 0x30u8,
            s@[1] == 0x78u8,
            bytes@.len() == i,
            forall|j: int| 2 <= j < 2 + 2 * i ==> is_hex_digit(#[trigger] s@[j]),
            forall|j: int| 0 <= j < i ==> bytes@[j] == hex_byte_at(s@, j),
        decreases 20 - i,
    {
        let hi = match hex_val_of(s[2 + 2 * i]) {
            Some(v) => v,
            None => {
                return None;
            },
        };
        let lo = match hex_val_of(s[3 + 2 * i]) {
            Some(v) => v,
            None => {
                return None;
            },
        };
        bytes.push(hi * 16 + lo);
        proof {
            assert forall|j: int| 2 <= j < 2 + 2 * (i + 1) implies is_hex_digit(#[trigger] s@[j]) by {
                if j == 2 + 2 * i {
                    assert(is_hex_digit(s@[j]));
                } else if j == 3 + 2 * i {
                    assert(is_hex_digit(s@[j]));
                }
            }
        }
        i = i + 1;
    }
    Some(Addr { bytes })
}

/// Encodes an address as `0x` followed by 40 lowercase hex digits. The result
/// always parses back to an equal address.
pub fn addr_to_hex(a: &Addr) -> (r: Vec<u8>)
    requires
        a.wf(),
    ensures
        is_addr_hex(r@),
        forall|i: int| 0 <= i < 20 ==> hex_byte_at(r@, i) == a@[i],
{
    let mut out: Vec<u8> = Vec::new();
    out.push(0x30);
    out.push(0x78);
    let mut i: usize = 0;
    while i < 20
        invariant
            0 <= i <= 20,
            a@.len() == 20,
            out@.len() == 2 + 2 * i,
            out@[0] == 0x30u8,
            out@[1] == 0x78u8,
            forall|j: int| 2 <= j < 2 + 2 * i ==> is_hex_digit(#[trigger] out@[j]),
            forall|j: int| 0 <= j < i ==> hex_byte_at(out@, j) == a@[j],
        decreases 20 - i,
    {
        let b = a.bytes[i];
        let hi = b / 16;
        let lo = b % 16;
        let hc = if hi < 10 {
            0x30 + hi
        } else {
            0x61 + hi - 10
        };
        let lc = if lo < 10 {
            0x30 + lo
        } else {
            0x61 + lo - 10
        };
        let ghost prev = out@;
        out.push(hc);
        out.push(lc);
        proof {
            assert(hc == hex_char(hi) && is_hex_digit(hc) && hex_val(hc) == hi);
            assert(lc == hex_char(lo) && is_hex_digit(lc) && hex_val(lc) == lo);
            assert forall|j: int| 0 <= j < i + 1 implies hex_byte_at(out@, j) == a@[j] by {
                if j < i {
                    assert(out@[2 + 2 * j] == prev[2 + 2 * j]);
                    assert(out@[3 + 2 * j] == prev[3 + 2 * j]);
                    assert(hex_byte_at(prev, j) == a@[j]);
                } else {
                    assert(out@[2 + 2 * j] == hc && out@[3 + 2 * j] == lc);
                    assert(hi * 16 + lo == a@[i as int]);
                }
            }
        }
        i = i + 1;
    }
    out
}

} // verus!
