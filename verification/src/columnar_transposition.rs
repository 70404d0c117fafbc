//! The columnar transposition: a text is dealt into columns, and the columns are read
//! in the order of a key.

use vstd::prelude::*;
use vstd::string::{StrSliceExecFns, StringSliceAdditionalSpecFns};
use crate::order::{ranked, ranking};
use crate::text::{byte_len, chars_of, string_of, width_of};

verus! {

/// A columnar transposition with its key, one number for each column.
pub struct ColumnarTransposition {
    key: Vec<u8>,
}

/// The characters of `text` that fall into column `j` of `n`: those whose place in
/// the text, counted in bytes of UTF-8, leaves `j` on division by `n`.
pub open spec fn column(text: Seq<char>, n: int, j: int) -> Seq<char>
    decreases text.len(),
{
    if text.len() == 0 {
        Seq::empty()
    } else if byte_len(text.drop_last()) % n == j {
        column(text.drop_last(), n, j).push(text.last())
    } else {
        column(text.drop_last(), n, j)
    }
}

/// The numbers of a key as keys of a ranking.
pub open spec fn key_ranks(key: Seq<u8>) -> Seq<u64> {
    Seq::new(key.len(), |i: int| key[i] as u64)
}

/// The first `r` columns in the order of the key, one after the other: the columns are
/// taken in ascending order of their numbers, columns with the same number from
/// left to right.
pub open spec fn columns_read(text: Seq<char>, key: Seq<u8>, r: int) -> Seq<char>
    decreases r,
{
    if r <= 0 {
        Seq::empty()
    } else {
        columns_read(text, key, r - 1) + column(text, key.len() as int, ranked(key_ranks(key))[r - 1].1 as int)
    }
}

impl ColumnarTransposition {
    /// The key: the number of each column.
    pub closed spec fn key(&self) -> Seq<u8> {
        self.key@
    }

    /// The transposition whose key is the bytes of `key`.
    pub fn new(key: &str) -> (cipher: Self)
        ensures
            cipher.key() == key.spec_bytes(),
    {
        Self { key: key.as_bytes_vec() }
    }

    /// The transposition with the given key.
    pub fn from_key_digits(key: &[u8]) -> (cipher: Self)
        ensures
            cipher.key() == key@,
    {
        let mut own: Vec<u8> = Vec::new();
        let mut i: usize = 0;
        while i < key.len()
            invariant
                i <= key.len(),
                own@ == key@.take(i as int),
            decreases key.len() - i,
        {
            own.push(key[i]);
            assert(own@ =~= key@.take(i + 1));
            i += 1;
        }
        assert(key@.take(key.len() as int) == key@);
        Self { key: own }
    }

    /// Encrypts `plaintext`: deals its characters into as many columns as the key has
    /// numbers and reads the columns in the order of the key; see [`columns_read`].
    /// The key must have a number, unless the text is empty.
    pub fn encrypt(&self, plaintext: &str) -> (out: String)
        requires
            self.key().len() > 0 || plaintext@.len() == 0,
        ensures
            out@ == columns_read(plaintext@, self.key(), self.key().len() as int),
    {
        let chars = chars_of(plaintext);
        let n = self.key.len();
        let ghost text = chars@;
        let ghost key = self.key@;
        let mut columns: Vec<Vec<char>> = Vec::new();
        let mut j: usize = 0;
        while j < n
            invariant
                j <= n,
                columns@.len() == j,
                forall|k: int| 0 <= k < j ==> (#[trigger] columns@[k])@ == Seq::<char>::empty(),
            decreases n - j,
        {
            columns.push(Vec::new());
            j += 1;
        }
        let mut offset: u128 = 0;
        let mut i: usize = 0;
        assert(text.take(0) =~= Seq::<char>::empty());
        while i < chars.len()
            invariant
                i <= chars.len(),
                n == self.key@.len(),
                n > 0 || chars@.len() == 0,
                text == chars@,
                columns@.len() == n,
                offset == byte_len(text.take(i as int)),
                offset <= 4 * i,
                forall|k: int| 0 <= k < n ==> (#[trigger] columns@[k])@ == column(text.take(i as int), n as int, k),
            decreases chars.len() - i,
        {
            let c = chars[i];
            let slot = (offset % n as u128) as usize;
            let ghost before = columns@;
            let ghost now = text.take(i + 1);
            proof {
                assert(now.drop_last() == text.take(i as int));
                assert(now.last() == c);
            }
            let mut line = Vec::new();
            std::mem::swap(&mut line, &mut columns[slot]);
            line.push(c);
            columns.set(slot, line);
            proof {
                assert forall|k: int| 0 <= k < n implies (#[trigger] columns@[k])@ == column(now, n as int, k) by {
                    if k != slot {
                        assert(columns@[k] == before[k]);
                    }
                }
            }
            offset = offset + width_of(c) as u128;
            i += 1;
        }
        assert(text.take(chars.len() as int) == text);
        let mut ranks: Vec<u64> = Vec::new();
        let mut j: usize = 0;
        while j < n
            invariant
                j <= n,
                n == self.key@.len(),
                ranks@ == key_ranks(self.key@.take(j as int)),
            decreases n - j,
        {
            ranks.push(self.key[j] as u64);
            assert(ranks@ =~= key_ranks(self.key@.take(j + 1)));
            j += 1;
        }
        assert(self.key@.take(n as int) == self.key@);
        let order = ranking(&ranks);
        let mut out: Vec<char> = Vec::new();
        let mut r: usize = 0;
        while r < n
            invariant
                r <= n,
                n == self.key@.len(),
                key == self.key@,
                order@ == ranked(key_ranks(key)),
                order@.len() == n,
                forall|k: int| 0 <= k < n ==> (#[trigger] order@[k]).1 < n,
                columns@.len() == n,
                chars@.len() > 0 ==> forall|k: int|
                    0 <= k < n ==> (#[trigger] columns@[k])@ == column(text, n as int, k),
                chars@.len() == 0 ==> forall|k: int|
                    0 <= k < n ==> (#[trigger] columns@[k])@ == Seq::<char>::empty(),
                text == chars@,
                out@ == columns_read(text, key, r as int),
            decreases n - r,
        {
            let from = order[r].1;
            let line = &columns[from];
            let ghost before = out@;
            proof {
                if chars@.len() == 0 {
                    assert(column(text, n as int, from as int) =~= Seq::<char>::empty());
                }
            }
            let mut k: usize = 0;
            while k < line.len()
                invariant
                    k <= line.len(),
                    out@ == before + line@.take(k as int),
                decreases line.len() - k,
            {
                out.push(line[k]);
                assert(out@ =~= before + line@.take(k + 1));
                k += 1;
            }
            assert(line@.take(line.len() as int) == line@);
            r += 1;
        }
        string_of(&out)
    }
}

} // verus!
