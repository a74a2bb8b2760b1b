//! Enumeration of all byte strings of one length, in lexicographic order.
//!
//! A string of `len` bytes is read as a number in base 256, most significant
//! byte first. Counting from zero up to `256^len - 1` then visits every string
//! once, and in lexicographic order.

use vstd::prelude::*;

verus! {

/// The number of byte strings of length `len`: 256 to the power `len`.
pub open spec fn pow256(len: nat) -> nat
    decreases len,
{
    if len == 0 {
        1
    } else {
        256 * pow256((len - 1) as nat)
    }
}

/// The number that a byte string spells in base 256, most significant byte
/// first.
pub open spec fn value_of(digits: Seq<u8>) -> nat
    decreases digits.len(),
{
    if digits.len() == 0 {
        0
    } else {
        value_of(digits.drop_last()) * 256 + digits.last() as nat
    }
}

/// The byte string of length `len` that spells the low `len` digits of `n`.
pub open spec fn digits_of(len: nat, n: nat) -> Seq<u8>
    decreases len,
{
    if len == 0 {
        Seq::empty()
    } else {
        digits_of((len - 1) as nat, n / 256).push((n % 256) as u8)
    }
}

/// `a` and `b` agree before index `p`, and `a` is smaller there.
pub open spec fn splits_at(a: Seq<u8>, b: Seq<u8>, p: int) -> bool {
    &&& 0 <= p < a.len()
    &&& p < b.len()
    &&& a.take(p) == b.take(p)
    &&& a[p] < b[p]
}

/// Strict lexicographic order on byte strings of one length.
pub open spec fn lex_less(a: Seq<u8>, b: Seq<u8>) -> bool {
    a.len() == b.len() && exists|p: int| splits_at(a, b, p)
}

/// Every byte of `digits` from index `from` on is `byte`.
pub open spec fn tail_is(digits: Seq<u8>, from: int, byte: u8) -> bool {
    forall|j: int| from <= j < digits.len() ==> digits[j] == byte
}

/// A string of `len` bytes spells a number below `256^len`.
pub proof fn lemma_value_bound(digits: Seq<u8>)
    ensures
        value_of(digits) < pow256(digits.len()),
    decreases digits.len(),
{
    if digits.len() > 0 {
        lemma_value_bound(digits.drop_last());
    }
}

/// Spelling a number and reading it back gives the string again.
pub proof fn lemma_digits_of_value(digits: Seq<u8>)
    ensures
        digits_of(digits.len(), value_of(digits)) == digits,
    decreases digits.len(),
{
    if digits.len() > 0 {
        let head = digits.drop_last();
        lemma_digits_of_value(head);
        let v = value_of(head);
        let n = value_of(digits);
        assert(n == v * 256 + digits.last() as nat);
        assert(n / 256 == v);
        assert(n % 256 == digits.last() as nat);
        assert(digits_of(digits.len(), n) =~= digits);
    }
}

/// Reading the string that spells a number below `256^len` gives the number.
pub proof fn lemma_value_of_digits(len: nat, n: nat)
    requires
        n < pow256(len),
    ensures
        digits_of(len, n).len() == len,
        value_of(digits_of(len, n)) == n,
    decreases len,
{
    if len > 0 {
        lemma_value_of_digits((len - 1) as nat, n / 256);
        let d = digits_of(len, n);
        assert(d.drop_last() =~= digits_of((len - 1) as nat, n / 256));
    }
}

/// The string of `len` bytes that spells a number has `len` bytes.
pub proof fn lemma_digits_len(len: nat, n: nat)
    ensures
        digits_of(len, n).len() == len,
    decreases len,
{
    if len > 0 {
        lemma_digits_len((len - 1) as nat, n / 256);
    }
}

/// A string of bytes that are all 255 spells the largest number of its length.
proof fn lemma_value_of_top(digits: Seq<u8>)
    requires
        tail_is(digits, 0, 255),
    ensures
        value_of(digits) + 1 == pow256(digits.len()),
    decreases digits.len(),
{
    if digits.len() > 0 {
        lemma_value_of_top(digits.drop_last());
    }
}

/// Adding one with carry: where `before` ends in 255s after index `i` and
/// `after` has one more at `i` and zeros behind it, `after` spells the next
/// number.
proof fn lemma_value_of_successor(before: Seq<u8>, after: Seq<u8>, i: int)
    requires
        0 <= i < before.len(),
        after.len() == before.len(),
        before[i] < 255,
        after[i] == before[i] + 1,
        after.take(i) == before.take(i),
        tail_is(before, i + 1, 255),
        tail_is(after, i + 1, 0),
    ensures
        value_of(after) == value_of(before) + 1,
    decreases before.len(),
{
    let b = before.drop_last();
    let a = after.drop_last();
    if i == before.len() - 1 {
        assert(a =~= after.take(i));
        assert(b =~= before.take(i));
    } else {
        assert(a.take(i) =~= after.take(i));
        assert(b.take(i) =~= before.take(i));
        lemma_value_of_successor(b, a, i);
    }
}

/// The enumeration is strictly increasing, so no string comes twice: a
/// smaller number is spelt by a lexicographically smaller string.
pub proof fn lemma_digits_strictly_increasing(len: nat, i: nat, j: nat)
    requires
        i < j < pow256(len),
    ensures
        lex_less(digits_of(len, i), digits_of(len, j)),
        digits_of(len, i) != digits_of(len, j),
    decreases len,
{
    let a = digits_of(len, i);
    let b = digits_of(len, j);
    lemma_digits_len(len, i);
    lemma_digits_len(len, j);
    if len > 0 {
        let head = (len - 1) as nat;
        let a0 = digits_of(head, i / 256);
        let b0 = digits_of(head, j / 256);
        lemma_digits_len(head, i / 256);
        lemma_digits_len(head, j / 256);
        if i / 256 < j / 256 {
            lemma_digits_strictly_increasing(head, i / 256, j / 256);
            let p = choose|p: int| splits_at(a0, b0, p);
            assert(a.take(p) =~= a0.take(p));
            assert(b.take(p) =~= b0.take(p));
            assert(splits_at(a, b, p));
        } else {
            let p = len - 1;
            assert(a.take(p) =~= a0);
            assert(b.take(p) =~= b0);
            assert(splits_at(a, b, p));
        }
    }
    let p = choose|p: int| splits_at(a, b, p);
    assert(a[p] != b[p]);
}

/// A counter through all byte strings of one length, from all zeros to all
/// 255s.
pub struct ByteRange {
    current: Vec<u8>,
    done: bool,
}

impl ByteRange {
    /// The length of the strings that the counter yields.
    pub closed spec fn width(&self) -> nat {
        self.current@.len()
    }

    /// How many strings the counter has yielded so far.
    pub closed spec fn position(&self) -> nat {
        if self.done {
            pow256(self.current@.len())
        } else {
            value_of(self.current@)
        }
    }

    /// Until it is exhausted a counter stands below `256^width`.
    pub proof fn lemma_position_bound(&self)
        ensures
            self.position() <= pow256(self.width()),
    {
        lemma_value_bound(self.current@);
    }

    /// A counter over the strings of `num_bytes` bytes, at its start.
    pub fn new(num_bytes: usize) -> (range: ByteRange)
        ensures
            range.width() == num_bytes,
            range.position() == 0,
    {
        let mut current: Vec<u8> = Vec::new();
        while current.len() < num_bytes
            invariant
                current@.len() <= num_bytes,
                value_of(current@) == 0,
            decreases num_bytes - current@.len(),
        {
            let ghost before = current@;
            current.push(0);
            assert(current@.drop_last() =~= before);
        }
        ByteRange { current, done: false }
    }

    /// Yields the next string, or `None` once all `256^width` have been
    /// yielded: the string yielded at position `n` spells `n`.
    pub fn next(&mut self) -> (item: Option<Vec<u8>>)
        ensures
            final(self).width() == old(self).width(),
            old(self).position() < pow256(old(self).width()) ==> {
                &&& item is Some
                &&& item->0@ == digits_of(old(self).width(), old(self).position())
                &&& final(self).position() == old(self).position() + 1
            },
            old(self).position() >= pow256(old(self).width()) ==> {
                &&& item is None
                &&& final(self).position() == old(self).position()
            },
    {
        let len = self.current.len();
        if self.done {
            return None;
        }
        let mut i = len;
        while i > 0
            invariant
                i <= len,
                len == self.current@.len(),
                tail_is(self.current@, i as int, 255),
                *self == *old(self),
                !self.done,
            decreases i,
        {
            i -= 1;
            if self.current[i] != 255 {
                let bytes = self.current.clone();
                assert(bytes@ =~= self.current@);
                let digit = self.current[i];
                self.current.set(i, digit + 1);
                let mut j = i + 1;
                while j < len
                    invariant
                        i < j <= len,
                        len == self.current@.len(),
                        len == old(self).current@.len(),
                        self.current@.take(i as int) == old(self).current@.take(i as int),
                        self.current@[i as int] == old(self).current@[i as int] + 1,
                        forall|m: int| i < m < j ==> self.current@[m] == 0,
                        self.done == old(self).done,
                    decreases len - j,
                {
                    let ghost before = self.current@;
                    self.current.set(j, 0);
                    assert(self.current@.take(i as int) =~= before.take(i as int));
                    j += 1;
                }
                proof {
                    lemma_value_of_successor(old(self).current@, self.current@, i as int);
                    lemma_value_bound(self.current@);
                    lemma_digits_of_value(old(self).current@);
                }
                return Some(bytes);
            }
        }
        proof {
            lemma_value_of_top(self.current@);
            lemma_digits_of_value(self.current@);
        }
        self.done = true;
        let bytes = self.current.clone();
        assert(bytes@ =~= self.current@);
        Some(bytes)
    }
}

} // verus!
