//! A fixed-capacity byte string.
//!
//! `String<N>` stores raw bytes in one [`crate::vector::Vec<u8, N>`] and
//! implements searching, splitting, trimming and replacement directly on
//! that byte buffer.

use vstd::prelude::*;

verus! {

use vstd::string::StringSliceAdditionalSpecFns;
use vstd::utf8::encode_scalar;
use vstd::utf8::valid_utf8;

/// A byte string holding at most `N` bytes.
///
/// The abstract value (the view) is the byte sequence; the bytes are not
/// revalidated as UTF-8 on every mutation, only where a method says so.
#[derive(Debug, Clone)]
pub struct String<const N: usize> {
    data: crate::vector::Vec<u8, N>,
}

impl<const N: usize> View for String<N> {
    type V = Seq<u8>;

    closed spec fn view(&self) -> Seq<u8> {
        self.data@
    }
}

/// ASCII whitespace: space, tab, line feed, form feed, carriage return.
pub open spec fn is_ascii_ws(b: u8) -> bool {
    b == 32 || b == 9 || b == 10 || b == 12 || b == 13
}

/// The single-byte form of a character: the low byte of its scalar value,
/// as a truncating cast produces it.
pub open spec fn char_byte(c: char) -> u8 {
    ((c as u32) % 256) as u8
}

/// The pattern `p` occurs in `s` starting at index `i`.
pub open spec fn match_at(s: Seq<u8>, p: Seq<u8>, i: int) -> bool {
    0 <= i && i + p.len() <= s.len() && s.subrange(i, i + p.len()) == p
}

/// The pattern `p` occurs somewhere in `s`.
pub open spec fn has_match(s: Seq<u8>, p: Seq<u8>) -> bool {
    exists|i: int| match_at(s, p, i)
}

/// `i` is the leftmost index at which `p` occurs in `s`.
pub open spec fn is_first_match(s: Seq<u8>, p: Seq<u8>, i: int) -> bool {
    match_at(s, p, i) && forall|j: int| 0 <= j < i ==> !match_at(s, p, j)
}

/// The byte sequence with its leading ASCII whitespace removed.
pub open spec fn trim_start_bytes(s: Seq<u8>) -> Seq<u8>
    decreases s.len(),
{
    if s.len() > 0 && is_ascii_ws(s[0]) {
        trim_start_bytes(s.drop_first())
    } else {
        s
    }
}

/// The byte sequence with its trailing ASCII whitespace removed.
pub open spec fn trim_end_bytes(s: Seq<u8>) -> Seq<u8>
    decreases s.len(),
{
    if s.len() > 0 && is_ascii_ws(s.last()) {
        trim_end_bytes(s.drop_last())
    } else {
        s
    }
}

/// The byte sequence with leading and trailing ASCII whitespace removed.
pub open spec fn trim_bytes(s: Seq<u8>) -> Seq<u8> {
    trim_end_bytes(trim_start_bytes(s))
}

proof fn lemma_trim_start_is_subrange(s: Seq<u8>, k: int)
    requires
        0 <= k <= s.len(),
        forall|j: int| 0 <= j < k ==> is_ascii_ws(s[j]),
        k == s.len() || !is_ascii_ws(s[k]),
    ensures
        trim_start_bytes(s) == s.subrange(k, s.len() as int),
    decreases k,
{
    if k == 0 {
        assert(trim_start_bytes(s) =~= s.subrange(0, s.len() as int));
    } else {
        let s1 = s.drop_first();
        assert(forall|j: int| 0 <= j < k - 1 ==> is_ascii_ws(s1[j]));
        lemma_trim_start_is_subrange(s1, k - 1);
        assert(s1.subrange(k - 1, s1.len() as int) =~= s.subrange(k, s.len() as int));
    }
}

proof fn lemma_trim_end_is_subrange(s: Seq<u8>, e: int)
    requires
        0 <= e <= s.len(),
        forall|j: int| e <= j < s.len() ==> is_ascii_ws(s[j]),
        e == 0 || !is_ascii_ws(s[e - 1]),
    ensures
        trim_end_bytes(s) == s.subrange(0, e),
    decreases s.len() - e,
{
    if e == s.len() {
        assert(trim_end_bytes(s) =~= s.subrange(0, e));
    } else {
        let s1 = s.drop_last();
        lemma_trim_end_is_subrange(s1, e);
        assert(s1.subrange(0, e) =~= s.subrange(0, e));
    }
}

proof fn lemma_trim_start_no_leading_ws(s: Seq<u8>)
    ensures
        trim_start_bytes(s).len() > 0 ==> !is_ascii_ws(trim_start_bytes(s)[0]),
    decreases s.len(),
{
    if s.len() > 0 && is_ascii_ws(s[0]) {
        lemma_trim_start_no_leading_ws(s.drop_first());
    }
}

proof fn lemma_trim_end_no_trailing_ws(s: Seq<u8>)
    ensures
        trim_end_bytes(s).len() > 0 ==> !is_ascii_ws(trim_end_bytes(s).last()),
    decreases s.len(),
{
    if s.len() > 0 && is_ascii_ws(s.last()) {
        lemma_trim_end_no_trailing_ws(s.drop_last());
    }
}

proof fn lemma_trim_end_keeps_first(s: Seq<u8>)
    ensures
        trim_end_bytes(s).len() > 0 ==> s.len() > 0 && trim_end_bytes(s)[0] == s[0],
    decreases s.len(),
{
    if s.len() > 0 && is_ascii_ws(s.last()) {
        lemma_trim_end_keeps_first(s.drop_last());
    }
}

/// Two adjacent slices rebuild the byte range they were cut from: the bytes
/// of `[start, mid)` followed by those of `[mid, end)` are exactly the bytes
/// of `[start, end)`.
pub proof fn lemma_slice_reconstruct(s: Seq<u8>, start: int, mid: int, end: int)
    requires
        0 <= start <= mid <= end <= s.len(),
    ensures
        s.subrange(start, mid) + s.subrange(mid, end) == s.subrange(start, end),
{
    assert(s.subrange(start, mid) + s.subrange(mid, end) =~= s.subrange(start, end));
}

/// Trimming is idempotent: trimming a trimmed byte sequence changes nothing.
pub proof fn lemma_trim_idempotent(s: Seq<u8>)
    ensures
        trim_bytes(trim_bytes(s)) == trim_bytes(s),
{
    let t0 = trim_start_bytes(s);
    let t = trim_end_bytes(t0);
    lemma_trim_start_no_leading_ws(s);
    lemma_trim_end_no_trailing_ws(t0);
    lemma_trim_end_keeps_first(t0);
    if t.len() > 0 {
        assert(!is_ascii_ws(t[0]));
        assert(!is_ascii_ws(t.last()));
    }
    assert(trim_start_bytes(t) == t);
    assert(trim_end_bytes(t) == t);
}

/// Whether `p` occurs in `s` at index `at`, by direct byte comparison.
fn slice_match_at(s: &[u8], p: &[u8], at: usize) -> (r: bool)
    requires
        p@.len() <= s@.len(),
        at <= s@.len() - p@.len(),
    ensures
        r == match_at(s@, p@, at as int),
{
    let slen = s.len();
    let plen = p.len();
    let mut j: usize = 0;
    while j < plen
        invariant
            j <= plen,
            slen == s@.len(),
            plen == p@.len() <= s@.len(),
            at <= s@.len() - p@.len(),
            forall|k: int| 0 <= k < j ==> s@[at + k] == p@[k],
        decreases plen - j,
    {
        if s[at + j] != p[j] {
            proof {
                assert(s@.subrange(at as int, at + p@.len())[j as int] != p@[j as int]);
            }
            return false;
        }
        j += 1;
    }
    proof {
        assert(s@.subrange(at as int, at + p@.len()) =~= p@);
    }
    true
}

/// The result of replacing, left to right, every non-overlapping occurrence
/// of `from` in `s` by `to`; bytes outside occurrences are copied through,
/// and the empty pattern matches nowhere, so `s` comes back unchanged.
pub open spec fn replace_bytes(s: Seq<u8>, from: Seq<u8>, to: Seq<u8>) -> Seq<u8>
    decreases s.len(),
{
    if from.len() == 0 || s.len() == 0 {
        s
    } else if match_at(s, from, 0) {
        to + replace_bytes(s.subrange(from.len() as int, s.len() as int), from, to)
    } else {
        seq![s[0]] + replace_bytes(s.subrange(1, s.len() as int), from, to)
    }
}

/// Replacing occurrences of the empty pattern is the identity.
pub proof fn lemma_replace_empty_pattern(s: Seq<u8>, to: Seq<u8>)
    ensures
        replace_bytes(s, Seq::empty(), to) == s,
{
}

/// One step of splitting on a substring pattern: `s` is the input not yet
/// consumed and `cur` the bytes gathered for the segment being built. A
/// match ends the current segment; once no match can fit, whatever remains
/// becomes a final segment unless it is empty.
pub open spec fn split_go(s: Seq<u8>, p: Seq<u8>, cur: Seq<u8>) -> Seq<Seq<u8>>
    decreases s.len(),
{
    if p.len() == 0 || p.len() > s.len() {
        if cur.len() + s.len() > 0 {
            seq![cur + s]
        } else {
            seq![]
        }
    } else if match_at(s, p, 0) {
        seq![cur] + split_go(s.subrange(p.len() as int, s.len() as int), p, Seq::empty())
    } else {
        split_go(s.subrange(1, s.len() as int), p, cur.push(s[0]))
    }
}

/// The segments of `s` around every non-overlapping occurrence of `p`,
/// scanning left to right; the trailing remainder after the last match is
/// kept unless empty, and an empty pattern splits nothing, yielding no
/// segments at all.
pub open spec fn split_bytes(s: Seq<u8>, p: Seq<u8>) -> Seq<Seq<u8>> {
    if p.len() == 0 {
        seq![]
    } else {
        split_go(s, p, Seq::empty())
    }
}

/// One step of splitting on a single delimiter byte: `s` is the input not
/// yet consumed and `cur` the segment being built. The final byte never
/// splits: it always lands inside the last segment.
pub open spec fn split_char_go(s: Seq<u8>, d: u8, cur: Seq<u8>) -> Seq<Seq<u8>>
    decreases s.len(),
{
    if s.len() == 0 {
        if cur.len() > 0 {
            seq![cur]
        } else {
            seq![]
        }
    } else if s.len() == 1 {
        seq![cur.push(s[0])]
    } else if s[0] == d {
        seq![cur] + split_char_go(s.subrange(1, s.len() as int), d, Seq::empty())
    } else {
        split_char_go(s.subrange(1, s.len() as int), d, cur.push(s[0]))
    }
}

/// The segments of `s` around every occurrence of the delimiter byte `d`,
/// with two special rules: a delimiter leading a longer string is absorbed
/// rather than producing an empty first segment, and the final byte always
/// stays inside the last segment.
pub open spec fn split_char_bytes(s: Seq<u8>, d: u8) -> Seq<Seq<u8>> {
    if s.len() > 1 && s[0] == d {
        split_char_go(s.subrange(1, s.len() as int), d, Seq::empty())
    } else {
        split_char_go(s, d, Seq::empty())
    }
}

/// The error that `core::str::from_utf8` reports on invalid input; opaque
/// here, carried through to the caller unchanged.
#[verifier::external_type_specification]
#[verifier::external_body]
pub struct ExUtf8Error(core::str::Utf8Error);

/// Relies on `core::str::from_utf8`: it returns the string viewing the given
/// bytes exactly when they are valid UTF-8, and an error otherwise.
#[verifier::external_body]
fn bytes_to_str(bytes: &[u8]) -> (r: Result<&str, core::str::Utf8Error>)
    ensures
        r is Ok <==> valid_utf8(bytes@),
        r is Ok ==> r.unwrap().spec_bytes() == bytes@,
{
    core::str::from_utf8(bytes)
}

/// Relies on `char::encode_utf8`: it writes exactly the UTF-8 encoding of
/// the character, which is the encoding of its scalar value.
#[verifier::external_body]
fn char_utf8_bytes(c: char) -> (r: Vec<u8>)
    ensures
        r@ == encode_scalar(c as u32),
{
    let mut buf = [0u8; 4];
    let encoded = c.encode_utf8(&mut buf);
    encoded.as_bytes().to_vec()
}

impl<const N: usize> String<N> {
    /// The container invariant: at most `N` bytes.
    pub open spec fn wf(&self) -> bool {
        self@.len() <= N
    }

    /// Creates an empty string.
    pub fn new() -> (r: Self)
        ensures
            r@ == Seq::<u8>::empty(),
            r.wf(),
    {
        String { data: crate::vector::Vec::new() }
    }

    /// Copies the encoded bytes of `value` verbatim, in order. The bytes
    /// must fit the capacity, so callers size `N` to the text they store.
    pub fn from(value: &str) -> (r: Self)
        requires
            value.spec_bytes().len() <= N,
        ensures
            r@ == value.spec_bytes(),
            r.wf(),
    {
        let bytes = value.as_bytes();
        Self::from_bytes(bytes)
    }

    /// Builds a string holding exactly the given bytes, which must fit the
    /// capacity. The bytes are taken as they are, with no UTF-8 validation:
    /// callers who need text afterwards vouch for the encoding themselves,
    /// or go through [`String::from_utf8`] instead.
    pub fn from_bytes(bytes: &[u8]) -> (r: Self)
        requires
            bytes@.len() <= N,
        ensures
            r@ == bytes@,
            r.wf(),
    {
        let mut data = crate::vector::Vec::<u8, N>::new();
        let length = bytes.len();
        let mut index: usize = 0;

        while index < length
            invariant
                index <= length,
                length == bytes@.len() <= N,
                data@ == bytes@.take(index as int),
                data.wf(),
            decreases length - index,
        {
            data.push(bytes[index]);
            assert(data@ =~= bytes@.take(index + 1));
            index += 1;
        }
        assert(data@ =~= bytes@);
        String { data }
    }

    /// Validates the bytes of `vec` as UTF-8; on success the string holds
    /// exactly those bytes, on failure an error value is returned.
    pub fn from_utf8(vec: crate::vector::Vec<u8, N>) -> (r: Result<Self, &'static str>)
        requires
            vec.wf(),
        ensures
            r is Ok <==> valid_utf8(vec@),
            r is Ok ==> r.unwrap()@ == vec@ && r.unwrap().wf(),
    {
        match bytes_to_str(vec.as_slice()) {
            Ok(..) => Ok(String { data: vec }),
            Err(..) => Err("error occured while creating string from utf8"),
        }
    }

    /// Interprets the bytes as text: the string slice viewing exactly the
    /// contents when they are valid UTF-8, an encoding error otherwise.
    pub fn as_str(&self) -> (r: Result<&str, core::str::Utf8Error>)
        ensures
            r is Ok <==> valid_utf8(self@),
            r is Ok ==> r.unwrap().spec_bytes() == self@,
    {
        bytes_to_str(self.data.as_slice())
    }

    /// Appends the UTF-8 byte form of `c`, which must fit the remaining
    /// capacity; a character encodes to at most four bytes.
    pub fn push_char(&mut self, c: char)
        requires
            old(self).wf(),
            old(self)@.len() + encode_scalar(c as u32).len() <= N,
        ensures
            final(self)@ == old(self)@ + encode_scalar(c as u32),
            final(self).wf(),
    {
        let bytes = char_utf8_bytes(c);
        let length = bytes.len();
        let mut index: usize = 0;

        while index < length
            invariant
                index <= length,
                length == bytes@.len(),
                old(self)@.len() + bytes@.len() <= N,
                bytes@ == encode_scalar(c as u32),
                self@ == old(self)@ + bytes@.take(index as int),
                self.wf(),
            decreases length - index,
        {
            proof {
                assert(old(self)@ + bytes@.take(index as int) + seq![bytes@[index as int]]
                    =~= old(self)@ + bytes@.take(index + 1));
            }
            self.data.push(bytes[index]);
            index += 1;
        }
        proof {
            assert(old(self)@ + bytes@.take(length as int) =~= old(self)@ + bytes@);
        }
    }

    /// Appends the encoded bytes of `value`, character by character, which
    /// must fit the remaining capacity.
    pub fn push_str(&mut self, value: &str)
        requires
            old(self).wf(),
            old(self)@.len() + value.spec_bytes().len() <= N,
        ensures
            final(self)@ == old(self)@ + value.spec_bytes(),
            final(self).wf(),
    {
        let bytes = value.as_bytes();
        let length = bytes.len();
        let mut index: usize = 0;

        while index < length
            invariant
                index <= length,
                length == bytes@.len(),
                old(self)@.len() + bytes@.len() <= N,
                bytes@ == value.spec_bytes(),
                self@ == old(self)@ + bytes@.take(index as int),
                self.wf(),
            decreases length - index,
        {
            proof {
                assert(old(self)@ + bytes@.take(index as int) + seq![bytes@[index as int]]
                    =~= old(self)@ + bytes@.take(index + 1));
            }
            self.data.push(bytes[index]);
            index += 1;
        }
        proof {
            assert(old(self)@ + bytes@.take(length as int) =~= old(self)@ + bytes@);
        }
    }

    /// The raw bytes of the current contents.
    pub fn as_bytes(&self) -> (r: &[u8])
        ensures
            r@ == self@,
    {
        self.data.as_slice()
    }

    /// The byte at `index`, or absent at or beyond the end.
    pub fn get(&self, index: usize) -> (r: Option<u8>)
        ensures
            index < self@.len() ==> r == Some(self@[index as int]),
            index >= self@.len() ==> r is None,
    {
        self.data.get(index)
    }

    /// The length in bytes.
    pub fn len(&self) -> (r: usize)
        ensures
            r == self@.len(),
    {
        self.data.len()
    }

    /// Whether the string holds no bytes.
    pub fn is_empty(&self) -> (r: bool)
        ensures
            r == (self@.len() == 0),
    {
        self.data.len() == 0
    }

    /// Compares the first byte to the single-byte form of `value`; for a
    /// multi-byte character this compares only its low byte, a documented
    /// limitation. The string must not be empty: there is no first byte to
    /// compare in an empty one.
    pub fn starts_with(&self, value: char) -> (r: bool)
        requires
            self@.len() > 0,
        ensures
            r == (self@[0] == char_byte(value)),
    {
        let b = ((value as u32) % 256) as u8;
        match self.data.get(0) {
            Some(first) => first == b,
            None => false,
        }
    }

    /// Compares the last byte to the single-byte form of `value`; for a
    /// multi-byte character this compares only its low byte, a documented
    /// limitation. The string must not be empty: there is no last byte to
    /// compare in an empty one.
    pub fn ends_with(&self, value: char) -> (r: bool)
        requires
            self@.len() > 0,
        ensures
            r == (self@[self@.len() - 1] == char_byte(value)),
    {
        let b = ((value as u32) % 256) as u8;
        match self.data.get(self.data.len() - 1) {
            Some(last) => last == b,
            None => false,
        }
    }

    /// Byte-wise equality: true exactly when the two strings have the same
    /// length and the same byte at every index, whatever their capacities.
    pub fn eq<const M: usize>(&self, other: &String<M>) -> (r: bool)
        ensures
            r == (self@ == other@),
    {
        if self.data.len() != other.data.len() {
            proof {
                assert(self@ != other@);
            }
            return false;
        }

        let length = self.data.len();
        let mut index: usize = 0;
        while index < length
            invariant
                index <= length,
                length == self@.len() == other@.len(),
                forall|j: int| 0 <= j < index ==> self@[j] == other@[j],
            decreases length - index,
        {
            let this = self.data.as_slice()[index];
            let that = other.data.as_slice()[index];
            if this != that {
                proof {
                    assert(self@[index as int] != other@[index as int]);
                }
                return false;
            }
            index += 1;
        }
        proof {
            assert(self@ =~= other@);
        }
        true
    }

    /// The first index whose byte equals the single-byte form of `pattern`,
    /// or absent when no byte does.
    pub fn find_char(&self, pattern: char) -> (r: Option<usize>)
        ensures
            r is None ==> forall|j: int| 0 <= j < self@.len()
                ==> self@[j] != char_byte(pattern),
            r matches Some(i) ==> i < self@.len() && self@[i as int] == char_byte(pattern)
                && forall|j: int| 0 <= j < i ==> self@[j] != char_byte(pattern),
    {
        let b = ((pattern as u32) % 256) as u8;
        let bytes = self.data.as_slice();
        let length = bytes.len();

        let mut index: usize = 0;
        while index < length
            invariant
                index <= length,
                length == self@.len(),
                bytes@ == self@,
                b == char_byte(pattern),
                forall|j: int| 0 <= j < index ==> self@[j] != b,
            decreases length - index,
        {
            if bytes[index] == b {
                return Some(index);
            }
            index += 1;
        }
        None
    }

    /// A new string with leading and trailing ASCII whitespace removed; an
    /// all-whitespace or empty string yields an empty string.
    pub fn trim(&self) -> (r: Self)
        requires
            self.wf(),
        ensures
            r@ == trim_bytes(self@),
            r.wf(),
    {
        let length = self.data.len();

        let mut start: usize = 0;
        while start < length && self.is_whitespace(start)
            invariant
                start <= length,
                length == self@.len(),
                self.wf(),
                forall|j: int| 0 <= j < start ==> is_ascii_ws(self@[j]),
            decreases length - start,
        {
            start += 1;
        }

        let mut end: usize = length;
        while end > start && self.is_whitespace(end - 1)
            invariant
                start <= end <= length,
                length == self@.len(),
                self.wf(),
                start == length || !is_ascii_ws(self@[start as int]),
                forall|j: int| 0 <= j < start ==> is_ascii_ws(self@[j]),
                forall|j: int| end <= j < length ==> is_ascii_ws(self@[j]),
            decreases end,
        {
            end -= 1;
        }

        let result = self.slice(start, end);
        proof {
            lemma_trim_start_is_subrange(self@, start as int);
            let t = self@.subrange(start as int, self@.len() as int);
            assert(forall|j: int| end - start <= j < t.len() ==> is_ascii_ws(t[j]));
            if end > start {
                assert(t[end - start - 1] == self@[end - 1]);
            }
            lemma_trim_end_is_subrange(t, end - start);
            assert(t.subrange(0, end - start) =~= self@.subrange(start as int, end as int));
        }
        result
    }

    /// Whether the string contains `pattern`: every string contains the
    /// empty pattern, and otherwise some contiguous byte range must equal
    /// the pattern's bytes.
    pub fn contains(&self, pattern: &str) -> (r: bool)
        ensures
            r == (pattern.spec_bytes().len() == 0 || has_match(self@, pattern.spec_bytes())),
    {
        let p = pattern.as_bytes();
        let plen = p.len();
        let bytes = self.data.as_slice();
        let length = bytes.len();

        if plen == 0 {
            return true;
        }
        if plen > length {
            proof {
                assert(forall|i: int| !match_at(self@, p@, i));
            }
            return false;
        }

        let mut index: usize = 0;
        while index <= length - plen
            invariant
                0 < plen <= length,
                length == self@.len(),
                plen == pattern.spec_bytes().len(),
                bytes@ == self@,
                p@ == pattern.spec_bytes(),
                index <= length - plen + 1,
                forall|j: int| 0 <= j < index ==> !match_at(self@, p@, j),
            decreases length - index,
        {
            if slice_match_at(bytes, p, index) {
                return true;
            }
            index += 1;
        }
        proof {
            assert(forall|i: int| match_at(self@, p@, i) ==> i <= self@.len() - p@.len());
        }
        false
    }

    /// The leftmost starting index of an exact occurrence of `pattern`, or
    /// absent when the pattern is empty, longer than the string, or never
    /// occurs. A non-empty pattern that is a prefix of the string is found
    /// at index 0.
    pub fn find(&self, pattern: &str) -> (r: Option<usize>)
        ensures
            r is None <==> (pattern.spec_bytes().len() == 0
                || !has_match(self@, pattern.spec_bytes())),
            r matches Some(i) ==> is_first_match(self@, pattern.spec_bytes(), i as int),
            pattern.spec_bytes().len() > self@.len() ==> r is None,
            (pattern.spec_bytes().len() > 0 && match_at(self@, pattern.spec_bytes(), 0))
                ==> r == Some(0usize),
    {
        let p = pattern.as_bytes();
        let plen = p.len();
        let bytes = self.data.as_slice();
        let length = bytes.len();

        if plen == 0 || plen > length {
            proof {
                assert(forall|i: int| p@.len() > self@.len() ==> !match_at(self@, p@, i));
            }
            return None;
        }

        let mut index: usize = 0;
        while index <= length - plen
            invariant
                0 < plen <= length,
                length == self@.len(),
                plen == pattern.spec_bytes().len(),
                bytes@ == self@,
                p@ == pattern.spec_bytes(),
                index <= length - plen + 1,
                forall|j: int| 0 <= j < index ==> !match_at(self@, p@, j),
            decreases length - index,
        {
            if slice_match_at(bytes, p, index) {
                return Some(index);
            }
            index += 1;
        }
        proof {
            assert(forall|i: int| match_at(self@, p@, i) ==> i <= self@.len() - p@.len());
        }
        None
    }

    /// The substring covering the half-open byte range `[start, end)`, as a
    /// fresh string of the same capacity. The range must lie within the
    /// string: only live bytes are ever read.
    pub fn slice(&self, start: usize, end: usize) -> (r: Self)
        requires
            self.wf(),
            start <= end <= self@.len(),
        ensures
            r@ == self@.subrange(start as int, end as int),
            r.wf(),
    {
        String { data: self.data.slice(start, end) }
    }

    /// A new string in which, scanning left to right, every non-overlapping
    /// occurrence of `from` is replaced by `to` and all other bytes are
    /// copied through unchanged; an empty `from` matches nowhere, so the
    /// string comes back unchanged. The result must fit the capacity, which
    /// callers check when `to` is longer than `from`.
    pub fn replace(&self, from: &str, to: &str) -> (r: Self)
        requires
            self.wf(),
            replace_bytes(self@, from.spec_bytes(), to.spec_bytes()).len() <= N,
        ensures
            r@ == replace_bytes(self@, from.spec_bytes(), to.spec_bytes()),
            r.wf(),
    {
        let from_bytes = from.as_bytes();
        let to_bytes = to.as_bytes();
        let flen = from_bytes.len();
        let tlen = to_bytes.len();
        let bytes = self.data.as_slice();
        let length = bytes.len();

        if flen == 0 {
            let r = self.slice(0, length);
            proof {
                assert(self@.subrange(0, self@.len() as int) =~= self@);
            }
            return r;
        }

        let ghost total = replace_bytes(self@, from_bytes@, to_bytes@);
        let mut result = crate::vector::Vec::<u8, N>::new();
        let mut index: usize = 0;
        proof {
            assert(self@.subrange(0, length as int) =~= self@);
            assert(Seq::<u8>::empty() + total =~= total);
        }

        while index < length
            invariant
                index <= length,
                length == self@.len(),
                self.wf(),
                bytes@ == self@,
                from_bytes@ == from.spec_bytes(),
                to_bytes@ == to.spec_bytes(),
                flen == from_bytes@.len(),
                0 < flen,
                tlen == to_bytes@.len(),
                result.wf(),
                total == replace_bytes(self@, from_bytes@, to_bytes@),
                total.len() <= N,
                total == result@ + replace_bytes(
                    self@.subrange(index as int, length as int),
                    from_bytes@,
                    to_bytes@,
                ),
            decreases length - index,
        {
            let ghost suffix = self@.subrange(index as int, length as int);
            if flen <= length - index && slice_match_at(bytes, from_bytes, index) {
                proof {
                    assert(suffix.subrange(0, flen as int)
                        =~= self@.subrange(index as int, index + flen));
                    assert(match_at(suffix, from_bytes@, 0));
                    assert(suffix.subrange(flen as int, suffix.len() as int)
                        =~= self@.subrange(index + flen, length as int));
                }
                let ghost rest = replace_bytes(
                    self@.subrange(index + flen, length as int),
                    from_bytes@,
                    to_bytes@,
                );
                let ghost result_before = result@;
                let mut j: usize = 0;
                while j < tlen
                    invariant
                        j <= tlen,
                        tlen == to_bytes@.len(),
                        result.wf(),
                        total.len() <= N,
                        result@ == result_before + to_bytes@.take(j as int),
                        total == result_before + to_bytes@ + rest,
                    decreases tlen - j,
                {
                    proof {
                        assert(total.len() == result_before.len() + to_bytes@.len()
                            + rest.len());
                        assert(result@.len() < N);
                        assert(result_before + to_bytes@.take(j as int)
                            + seq![to_bytes@[j as int]]
                            =~= result_before + to_bytes@.take(j + 1));
                    }
                    result.push(to_bytes[j]);
                    j += 1;
                }
                proof {
                    assert(result@ =~= result_before + to_bytes@);
                }
                index += flen;
            } else {
                proof {
                    if flen <= length - index {
                        assert(!match_at(self@, from_bytes@, index as int));
                        assert(self@.subrange(index as int, index + flen)
                            =~= suffix.subrange(0, flen as int));
                    }
                    assert(!match_at(suffix, from_bytes@, 0));
                    assert(suffix.subrange(1, suffix.len() as int)
                        =~= self@.subrange(index + 1, length as int));
                    assert(total.len() == result@.len() + 1 + replace_bytes(
                        self@.subrange(index + 1, length as int),
                        from_bytes@,
                        to_bytes@,
                    ).len());
                    assert(result@ + (seq![suffix[0]] + replace_bytes(
                        self@.subrange(index + 1, length as int),
                        from_bytes@,
                        to_bytes@,
                    )) =~= (result@ + seq![self@[index as int]]) + replace_bytes(
                        self@.subrange(index + 1, length as int),
                        from_bytes@,
                        to_bytes@,
                    ));
                }
                result.push(bytes[index]);
                index += 1;
            }
        }
        proof {
            assert(self@.subrange(length as int, length as int) =~= Seq::<u8>::empty());
            assert(result@ + Seq::<u8>::empty() =~= result@);
        }
        String { data: result }
    }

    /// Splits on every non-overlapping occurrence of `pattern`, scanning
    /// left to right; the remainder after the last match is kept as a final
    /// segment unless it is empty, and an empty pattern yields no segments.
    pub fn split(&self, pattern: &str) -> (r: crate::vector::Vec<String<N>, N>)
        requires
            self.wf(),
        ensures
            r@.map_values(|seg: String<N>| seg@)
                == split_bytes(self@, pattern.spec_bytes()),
            r.wf(),
            forall|i: int| 0 <= i < r@.len() ==> (#[trigger] r@[i]).wf(),
    {
        let p = pattern.as_bytes();
        let plen = p.len();
        let bytes = self.data.as_slice();
        let length = bytes.len();
        let mut result = crate::vector::Vec::<String<N>, N>::new();

        if plen == 0 {
            proof {
                assert(result@.map_values(|seg: String<N>| seg@)
                    =~= split_bytes(self@, pattern.spec_bytes()));
            }
            return result;
        }

        let mut start: usize = 0;
        let mut index: usize = 0;
        proof {
            assert(self@.subrange(0, length as int) =~= self@);
            assert(self@.subrange(0, 0) =~= Seq::<u8>::empty());
            assert(result@.map_values(|seg: String<N>| seg@)
                =~= Seq::<Seq<u8>>::empty());
            assert(Seq::<Seq<u8>>::empty() + split_go(self@, p@, Seq::<u8>::empty())
                =~= split_go(self@, p@, Seq::<u8>::empty()));
        }

        if plen <= length {
            while index <= length - plen
                invariant
                    0 < plen <= length,
                    length == self@.len(),
                    self.wf(),
                    bytes@ == self@,
                    p@ == pattern.spec_bytes(),
                    plen == p@.len(),
                    start <= index <= length,
                    result.wf(),
                    result@.len() <= start,
                    forall|i: int| 0 <= i < result@.len() ==> (#[trigger] result@[i]).wf(),
                    split_bytes(self@, p@) == result@.map_values(|seg: String<N>| seg@)
                        + split_go(
                            self@.subrange(index as int, length as int),
                            p@,
                            self@.subrange(start as int, index as int),
                        ),
                decreases length - index,
            {
                let ghost suffix = self@.subrange(index as int, length as int);
                let ghost cur = self@.subrange(start as int, index as int);
                let ghost views = result@.map_values(|seg: String<N>| seg@);
                if slice_match_at(bytes, p, index) {
                    let seg = self.slice(start, index);
                    proof {
                        assert(suffix.subrange(0, plen as int)
                            =~= self@.subrange(index as int, index + plen));
                        assert(match_at(suffix, p@, 0));
                        assert(suffix.subrange(plen as int, suffix.len() as int)
                            =~= self@.subrange(index + plen, length as int));
                        let rest = split_go(
                            self@.subrange(index + plen, length as int),
                            p@,
                            Seq::<u8>::empty(),
                        );
                        assert(split_go(suffix, p@, cur) == seq![cur] + rest);
                        assert(result@.push(seg).map_values(|s2: String<N>| s2@)
                            =~= views.push(seg@));
                        assert(views + (seq![cur] + rest) =~= views.push(cur) + rest);
                        assert(self@.subrange(index + plen, index + plen)
                            =~= Seq::<u8>::empty());
                    }
                    result.push(seg);
                    start = index + plen;
                    index = start;
                } else {
                    proof {
                        assert(self@.subrange(index as int, index + plen)
                            =~= suffix.subrange(0, plen as int));
                        assert(!match_at(suffix, p@, 0));
                        assert(suffix.subrange(1, suffix.len() as int)
                            =~= self@.subrange(index + 1, length as int));
                        assert(cur.push(suffix[0])
                            =~= self@.subrange(start as int, index + 1));
                        assert(split_go(suffix, p@, cur)
                            == split_go(
                                self@.subrange(index + 1, length as int),
                                p@,
                                self@.subrange(start as int, index + 1),
                            ));
                    }
                    index += 1;
                }
            }
        }

        proof {
            assert(self@.subrange(index as int, length as int).len() < plen);
            assert(self@.subrange(start as int, index as int)
                + self@.subrange(index as int, length as int)
                =~= self@.subrange(start as int, length as int));
        }
        if start < length {
            let seg = self.slice(start, length);
            proof {
                let views = result@.map_values(|s2: String<N>| s2@);
                assert(result@.push(seg).map_values(|s2: String<N>| s2@)
                    =~= views.push(seg@));
                assert(views + seq![seg@] =~= views.push(seg@));
            }
            result.push(seg);
        } else {
            proof {
                let views = result@.map_values(|s2: String<N>| s2@);
                assert(views + Seq::<Seq<u8>>::empty() =~= views);
                assert(self@.subrange(start as int, length as int).len() == 0);
            }
        }
        result
    }

    /// Splits on every occurrence of the single character `pattern`
    /// (compared by its single-byte form), scanning left to right. A
    /// delimiter leading a longer string is absorbed rather than producing
    /// an empty first segment, and the last segment always includes the
    /// final byte of the string, even when that byte is the delimiter.
    pub fn split_char(&self, pattern: char) -> (r: crate::vector::Vec<String<N>, N>)
        requires
            self.wf(),
        ensures
            r@.map_values(|seg: String<N>| seg@)
                == split_char_bytes(self@, char_byte(pattern)),
            r.wf(),
            forall|i: int| 0 <= i < r@.len() ==> (#[trigger] r@[i]).wf(),
    {
        let d = ((pattern as u32) % 256) as u8;
        let bytes = self.data.as_slice();
        let length = bytes.len();
        let mut result = crate::vector::Vec::<String<N>, N>::new();

        if length == 0 {
            proof {
                assert(result@.map_values(|seg: String<N>| seg@)
                    =~= split_char_bytes(self@, char_byte(pattern)));
            }
            return result;
        }

        let mut start: usize = 0;
        if length > 1 && bytes[0] == d {
            start = 1;
        }
        let mut index: usize = start;
        proof {
            assert(self@.subrange(0, length as int) =~= self@);
            assert(self@.subrange(start as int, start as int) =~= Seq::<u8>::empty());
            assert(result@.map_values(|seg: String<N>| seg@)
                =~= Seq::<Seq<u8>>::empty());
            assert(Seq::<Seq<u8>>::empty()
                + split_char_go(
                    self@.subrange(start as int, length as int),
                    d,
                    Seq::<u8>::empty(),
                ) =~= split_char_go(
                    self@.subrange(start as int, length as int),
                    d,
                    Seq::<u8>::empty(),
                ));
        }

        while index < length - 1
            invariant
                1 <= length == self@.len(),
                self.wf(),
                bytes@ == self@,
                d == char_byte(pattern),
                start <= index <= length - 1,
                result.wf(),
                result@.len() <= start,
                forall|i: int| 0 <= i < result@.len() ==> (#[trigger] result@[i]).wf(),
                split_char_bytes(self@, d)
                    == result@.map_values(|seg: String<N>| seg@)
                        + split_char_go(
                            self@.subrange(index as int, length as int),
                            d,
                            self@.subrange(start as int, index as int),
                        ),
            decreases length - index,
        {
            let ghost suffix = self@.subrange(index as int, length as int);
            let ghost cur = self@.subrange(start as int, index as int);
            let ghost views = result@.map_values(|seg: String<N>| seg@);
            if bytes[index] == d {
                let seg = self.slice(start, index);
                proof {
                    assert(suffix.len() >= 2);
                    assert(suffix[0] == d);
                    assert(suffix.subrange(1, suffix.len() as int)
                        =~= self@.subrange(index + 1, length as int));
                    let rest = split_char_go(
                        self@.subrange(index + 1, length as int),
                        d,
                        Seq::<u8>::empty(),
                    );
                    assert(split_char_go(suffix, d, cur) == seq![cur] + rest);
                    assert(result@.push(seg).map_values(|s2: String<N>| s2@)
                        =~= views.push(seg@));
                    assert(views + (seq![cur] + rest) =~= views.push(cur) + rest);
                    assert(self@.subrange(index + 1, index + 1) =~= Seq::<u8>::empty());
                }
                result.push(seg);
                start = index + 1;
            } else {
                proof {
                    assert(suffix.len() >= 2);
                    assert(suffix[0] != d);
                    assert(suffix.subrange(1, suffix.len() as int)
                        =~= self@.subrange(index + 1, length as int));
                    assert(cur.push(suffix[0]) =~= self@.subrange(start as int, index + 1));
                    assert(split_char_go(suffix, d, cur)
                        == split_char_go(
                            self@.subrange(index + 1, length as int),
                            d,
                            self@.subrange(start as int, index + 1),
                        ));
                }
            }
            index += 1;
        }

        let seg = self.slice(start, length);
        proof {
            let suffix = self@.subrange(index as int, length as int);
            let cur = self@.subrange(start as int, index as int);
            let views = result@.map_values(|s2: String<N>| s2@);
            assert(suffix.len() == 1);
            assert(split_char_go(suffix, d, cur) == seq![cur.push(suffix[0])]);
            assert(cur.push(suffix[0]) =~= self@.subrange(start as int, length as int));
            assert(result@.push(seg).map_values(|s2: String<N>| s2@)
                =~= views.push(seg@));
            assert(views + seq![seg@] =~= views.push(seg@));
        }
        result.push(seg);
        result
    }

    /// ASCII whitespace test on the byte at `index`, which must be in
    /// range: there is no byte to test beyond the end.
    pub fn is_whitespace(&self, index: usize) -> (r: bool)
        requires
            index < self@.len(),
        ensures
            r == is_ascii_ws(self@[index as int]),
    {
        match self.data.get(index) {
            Some(value) => value == 32 || value == 9 || value == 10 || value == 12 || value == 13,
            None => false,
        }
    }
}

} // verus!
