//! 20-byte account addresses, their text form, 32-byte words, and a small map
//! keyed by address.

use vstd::prelude::*;

verus! {

/// A 20-byte address: `hi` holds its first 4 bytes and `lo` the other 16,
/// both big-endian, so the numeric order of `(hi, lo)` is the byte order.
#[derive(Clone, Copy, PartialEq, Eq, Structural, Debug, Hash)]
pub struct Address {
    pub hi: u32,
    pub lo: u128,
}

impl Address {
    /// The address read as a big-endian number.
    pub open spec fn val(self) -> nat {
        (self.hi * 0x1_0000_0000_0000_0000_0000_0000_0000_0000int + self.lo) as nat
    }

    /// Byte-wise (big-endian) comparison, `self > other`.
    pub fn gt(&self, other: &Address) -> (r: bool)
        ensures
            r == (self.val() > other.val()),
    {
        if self.hi != other.hi {
            self.hi > other.hi
        } else {
            self.lo > other.lo
        }
    }
}

/// The value of a hexadecimal digit (either case).
pub open spec fn hex_digit(c: char) -> Option<nat> {
    if '0' <= c && c <= '9' {
        Some((c as int - '0' as int) as nat)
    } else if 'a' <= c && c <= 'f' {
        Some((c as int - 'a' as int + 10) as nat)
    } else if 'A' <= c && c <= 'F' {
        Some((c as int - 'A' as int + 10) as nat)
    } else {
        None
    }
}

/// The number a string of hexadecimal digits spells, if every character is one.
pub open spec fn hex_value(s: Seq<char>) -> Option<nat>
    decreases s.len(),
{
    if s.len() == 0 {
        Some(0)
    } else {
        match (hex_value(s.drop_last()), hex_digit(s.last())) {
            (Some(v), Some(d)) => Some(v * 16 + d),
            _ => None,
        }
    }
}

/// 16^n
pub open spec fn pow16(n: nat) -> nat
    decreases n,
{
    if n == 0 { 1 } else { 16 * pow16((n - 1) as nat) }
}

/// Digits written after others shift those by their number.
pub proof fn lemma_hex_concat(a: Seq<char>, b: Seq<char>)
    ensures
        hex_value(a + b) == (match (hex_value(a), hex_value(b)) {
            (Some(x), Some(y)) => Some(x * pow16(b.len()) + y),
            _ => None::<nat>,
        }),
    decreases b.len(),
{
    if b.len() == 0 {
        assert(a + b =~= a);
        assert(hex_value(b) == Some(0nat));
        assert(pow16(0) == 1);
        if let Some(x) = hex_value(a) {
            assert(x * pow16(b.len()) + 0 == x);
        }
    } else {
        let b2 = b.drop_last();
        lemma_hex_concat(a, b2);
        assert((a + b).drop_last() =~= a + b2);
        assert((a + b).last() == b.last());
        assert(b.drop_last() == b2);
        assert(hex_value(b) == (match (hex_value(b2), hex_digit(b.last())) {
            (Some(v), Some(dg)) => Some(v * 16 + dg),
            _ => None::<nat>,
        }));
        assert(hex_value(a + b) == (match (hex_value(a + b2), hex_digit(b.last())) {
            (Some(v), Some(dg)) => Some(v * 16 + dg),
            _ => None::<nat>,
        }));
        if let (Some(x), Some(y2), Some(dg)) = (hex_value(a), hex_value(b2), hex_digit(b.last())) {
            let p = pow16(b2.len());
            assert(pow16(b.len()) == 16 * p);
            assert((x * p + y2) * 16 + dg == x * (16 * p) + (y2 * 16 + dg)) by (nonlinear_arith);
            assert(hex_value(a + b) == Some(x * pow16(b.len()) + (y2 * 16 + dg)));
        }
    }
}

/// The text without a leading `0x` or `0X`.
pub open spec fn strip_hex_prefix(s: Seq<char>) -> Seq<char> {
    if s.len() >= 2 && s[0] == '0' && (s[1] == 'x' || s[1] == 'X') {
        s.subrange(2, s.len() as int)
    } else {
        s
    }
}

/// The address a text spells: 40 hexadecimal digits, optionally after `0x`.
pub open spec fn address_text_value(s: Seq<char>) -> Option<nat> {
    let t = strip_hex_prefix(s);
    if t.len() == 40 { hex_value(t) } else { None }
}

/// `alloy_primitives::Address::from_str` (hex decoding into 20 bytes): the
/// text must be exactly 40 hexadecimal digits of either case after an
/// optional `0x`/`0X`, and the address is their big-endian value; no
/// checksum is checked.
#[verifier::external_body]
pub(crate) fn parse_address(s: &str) -> (r: Option<Address>)
    ensures
        match address_text_value(s@) {
            Some(v) => r is Some && r->0.val() == v,
            None => r is None,
        },
{
    match s.parse::<alloy_primitives::Address>() {
        Ok(a) => {
            let b = a.0.0;
            let hi = u32::from_be_bytes([b[0], b[1], b[2], b[3]]);
            let lo = u128::from_be_bytes([b[4], b[5], b[6], b[7], b[8], b[9], b[10], b[11], b[12], b[13], b[14], b[15], b[16], b[17], b[18], b[19]]);
            Some(Address { hi, lo })
        },
        Err(_) => None,
    }
}

/// A 32-byte word such as a log topic: `hi` holds the first 16 bytes.
#[derive(Clone, Copy, PartialEq, Eq, Structural, Debug, Hash)]
pub struct B256 {
    pub hi: u128,
    pub lo: u128,
}

/// A map keyed by address, kept as a list of entries in insertion order.
#[derive(Debug)]
pub struct AddressMap<V> {
    pub entries: Vec<(Address, V)>,
}

impl<V> AddressMap<V> {
    /// No address has two entries.
    pub open spec fn wf(&self) -> bool {
        forall|i: int, j: int|
            0 <= i < j < self.entries@.len() ==> #[trigger] self.entries@[i].0 != #[trigger] self.entries@[j].0
    }

    pub open spec fn has(&self, a: Address) -> bool {
        exists|i: int| 0 <= i < self.entries@.len() && #[trigger] self.entries@[i].0 == a
    }

    pub open spec fn position(&self, a: Address) -> int {
        choose|i: int| 0 <= i < self.entries@.len() && #[trigger] self.entries@[i].0 == a
    }

    /// The keys in the order of their first insertion.
    pub open spec fn keys(&self) -> Seq<Address> {
        self.entries@.map_values(|e: (Address, V)| e.0)
    }

    pub open spec fn view(&self) -> Map<Address, V> {
        Map::new(|a: Address| self.has(a), |a: Address| self.entries@[self.position(a)].1)
    }

    pub fn new() -> (m: AddressMap<V>)
        ensures
            m.wf(),
            m.entries@.len() == 0,
            m@ == Map::<Address, V>::empty(),
    {
        let m = AddressMap { entries: Vec::new() };
        assert(m@ =~= Map::<Address, V>::empty());
        m
    }

    /// The index of `a`'s entry, if it has one.
    pub fn find(&self, a: &Address) -> (r: Option<usize>)
        requires
            self.wf(),
        ensures
            match r {
                Some(i) => i < self.entries@.len() && self.entries@[i as int].0 == *a && self.has(*a)
                    && self.position(*a) == i,
                None => !self.has(*a),
            },
    {
        let mut i: usize = 0;
        while i < self.entries.len()
            invariant
                self.wf(),
                i <= self.entries@.len(),
                forall|j: int| 0 <= j < i ==> self.entries@[j].0 != *a,
            decreases self.entries@.len() - i,
        {
            if self.entries[i].0 == *a {
                proof {
                    let p = self.position(*a);
                    assert(self.entries@[p].0 == *a);
                    assert(p == i as int);
                }
                return Some(i);
            }
            i = i + 1;
        }
        None
    }

    pub fn contains_key(&self, a: &Address) -> (r: bool)
        requires
            self.wf(),
        ensures
            r == self@.contains_key(*a),
    {
        self.find(a).is_some()
    }

    pub fn get(&self, a: &Address) -> (r: Option<&V>)
        requires
            self.wf(),
        ensures
            match r {
                Some(v) => self@.contains_key(*a) && *v == self@[*a],
                None => !self@.contains_key(*a),
            },
    {
        match self.find(a) {
            Some(i) => Some(&self.entries[i].1),
            None => None,
        }
    }

    /// Sets the value of `a`, replacing an earlier one in place, or appending a new entry.
    pub fn insert(&mut self, a: Address, v: V)
        requires
            old(self).wf(),
        ensures
            final(self).wf(),
            final(self)@ == old(self)@.insert(a, v),
            old(self).has(a) ==> final(self).keys() == old(self).keys(),
            !old(self).has(a) ==> final(self).keys() == old(self).keys().push(a),
    {
        match self.find(&a) {
            Some(i) => {
                let ghost pre = *self;
                self.entries.set(i, (a, v));
                proof {
                    assert forall|b: Address| self.has(b) == pre.has(b) by {
                        if pre.has(b) {
                            let j = pre.position(b);
                            assert(self.entries@[j].0 == b);
                        }
                        if self.has(b) {
                            let j = self.position(b);
                            assert(pre.entries@[j].0 == b);
                        }
                    }
                    assert forall|b: Address| #[trigger] self.has(b) && b != a implies self.position(b) == pre.position(b) by {
                        let j = self.position(b);
                        let k = pre.position(b);
                        assert(self.entries@[j].0 == b);
                        assert(pre.entries@[k].0 == b);
                        assert(pre.entries@[j].0 == b);
                    }
                    assert(self.position(a) == i as int) by {
                        let j = self.position(a);
                        assert(self.entries@[i as int].0 == a);
                    }
                    assert(self@ =~= pre@.insert(a, v));
                    assert(self.keys() =~= pre.keys());
                }
            },
            None => {
                let ghost pre = *self;
                self.entries.push((a, v));
                proof {
                    let n = pre.entries@.len() as int;
                    assert(self.entries@[n].0 == a);
                    assert forall|b: Address| self.has(b) == (pre.has(b) || b == a) by {
                        if pre.has(b) {
                            let j = pre.position(b);
                            assert(self.entries@[j].0 == b);
                        }
                        if self.has(b) && b != a {
                            let j = self.position(b);
                            assert(pre.entries@[j].0 == b);
                        }
                    }
                    assert forall|b: Address| #[trigger] self.has(b) && b != a implies self.position(b) == pre.position(b) by {
                        let j = self.position(b);
                        let k = pre.position(b);
                        assert(pre.entries@[j].0 == b);
                        assert(pre.entries@[k].0 == b);
                    }
                    assert(self.position(a) == n) by {
                        let j = self.position(a);
                        assert(self.entries@[j].0 == a);
                    }
                    assert(self@ =~= pre@.insert(a, v));
                    assert(self.keys() =~= pre.keys().push(a));
                }
            },
        }
    }
}

} // verus!
