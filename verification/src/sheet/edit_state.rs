//! Inline cell editing: a text buffer with a cursor that sits at a byte
//! offset of the buffer's UTF-8 encoding, and the cell's value from before
//! the edit.
use vstd::prelude::*;
use vstd::utf8::{encode_utf8, encode_scalar};
use crate::text::{byte_offset, byte_count, chars_of, string_of, char_len_utf8, lemma_offset_step,
    lemma_offset_end};

verus! {

/// State of an inline edit; `V` is the type of the cell values kept for
/// cancelling.
#[derive(Debug, Clone)]
pub struct EditState<V> {
    /// Whether an edit is in progress.
    pub editing: bool,
    /// The text being edited.
    pub buffer: String,
    /// Byte offset of the cursor in the buffer.
    pub cursor_pos: usize,
    /// The value the cell had before the edit.
    pub previous_value: Option<V>,
}

/// Byte offsets grow with the character index, strictly.
pub proof fn lemma_offset_mono(s: Seq<char>, i: int, j: int)
    requires
        0 <= i <= j <= s.len(),
    ensures
        byte_offset(s, i) <= byte_offset(s, j),
        i < j ==> byte_offset(s, i) < byte_offset(s, j),
    decreases j - i,
{
    if i < j {
        lemma_offset_mono(s, i, j - 1);
        lemma_offset_step(s, j - 1);
        vstd::utf8::char_is_scalar(s[j - 1]);
        assert(encode_scalar(s[j - 1] as u32).len() >= 1);
    }
}

/// `b` is the byte offset of a character boundary of `s`.
pub open spec fn is_boundary(s: Seq<char>, b: int) -> bool {
    exists|k: int| 0 <= k <= s.len() && byte_offset(s, k) == b
}

/// The character index of a boundary.
pub open spec fn boundary_index(s: Seq<char>, b: int) -> int {
    choose|k: int| 0 <= k <= s.len() && byte_offset(s, k) == b
}

/// The first character, from index `j` on, that starts at or after byte `b`;
/// the length when none does.
pub open spec fn scan_ge(s: Seq<char>, b: int, j: int) -> int
    decreases s.len() - j,
{
    if j >= s.len() || j < 0 {
        s.len() as int
    } else if byte_offset(s, j) >= b {
        j
    } else {
        scan_ge(s, b, j + 1)
    }
}

/// The first character, from index `j` on, that starts after byte `b`; the
/// length when none does.
pub open spec fn scan_gt(s: Seq<char>, b: int, j: int) -> int
    decreases s.len() - j,
{
    if j >= s.len() || j < 0 {
        s.len() as int
    } else if byte_offset(s, j) > b {
        j
    } else {
        scan_gt(s, b, j + 1)
    }
}

/// Number of bytes of the encoding of `s`.
pub open spec fn byte_total(s: Seq<char>) -> int {
    encode_utf8(s).len() as int
}

pub(crate) proof fn lemma_scan_ge_bounds(s: Seq<char>, b: int, j: int)
    requires
        0 <= j <= s.len(),
    ensures
        j <= scan_ge(s, b, j) <= s.len(),
        forall|i: int| j <= i < scan_ge(s, b, j) ==> byte_offset(s, i) < b,
        scan_ge(s, b, j) < s.len() ==> byte_offset(s, scan_ge(s, b, j)) >= b,
    decreases s.len() - j,
{
    if j < s.len() && byte_offset(s, j) < b {
        lemma_scan_ge_bounds(s, b, j + 1);
    }
}

pub(crate) proof fn lemma_scan_gt_bounds(s: Seq<char>, b: int, j: int)
    requires
        0 <= j <= s.len(),
    ensures
        j <= scan_gt(s, b, j) <= s.len(),
        forall|i: int| j <= i < scan_gt(s, b, j) ==> byte_offset(s, i) <= b,
        scan_gt(s, b, j) < s.len() ==> byte_offset(s, scan_gt(s, b, j)) > b,
    decreases s.len() - j,
{
    if j < s.len() && byte_offset(s, j) <= b {
        lemma_scan_gt_bounds(s, b, j + 1);
    }
}

proof fn lemma_scan_ge_at(s: Seq<char>, b: int, j: int, m: int)
    requires
        0 <= j <= m < s.len(),
        byte_offset(s, m) >= b,
        forall|i: int| j <= i < m ==> byte_offset(s, i) < b,
    ensures
        scan_ge(s, b, j) == m,
    decreases m - j,
{
    if j < m {
        lemma_scan_ge_at(s, b, j + 1, m);
    }
}

/// Backspace undoes an insertion: after a character is inserted at a
/// boundary and the cursor moved past it, deleting the character before
/// the cursor gives back the text and the cursor position.
pub proof fn lemma_backspace_undoes_insert(s: Seq<char>, cursor: int, ch: char)
    requires
        is_boundary(s, cursor),
    ensures
        ({
            let t = s.insert(boundary_index(s, cursor), ch);
            let c1 = cursor + encode_scalar(ch as u32).len();
            let j = scan_ge(t, c1, 0);
            c1 > 0 && t.len() > 0 && t.remove(j - 1) == s && byte_offset(t, j - 1) == cursor
        }),
{
    let k = boundary_index(s, cursor);
    let t = s.insert(k, ch);
    let c1 = cursor + encode_scalar(ch as u32).len();
    assert(0 <= k <= s.len() && byte_offset(s, k) == cursor);
    assert(t.take(k) =~= s.take(k));
    assert(t[k] == ch);
    lemma_offset_step(t, k);
    assert(byte_offset(t, k + 1) == c1);
    vstd::utf8::char_is_scalar(ch);
    assert forall|i: int| 0 <= i < k + 1 implies byte_offset(t, i) < c1 by {
        lemma_offset_mono(t, i, k + 1);
    }
    if k + 1 < t.len() {
        lemma_scan_ge_at(t, c1, 0, k + 1);
    } else {
        lemma_scan_ge_bounds(t, c1, 0);
    }
    assert(t.remove(k) =~= s);
}

/// The byte offsets of all characters of `text`, and that of its end.
fn offsets_of(text: &str) -> (v: Vec<usize>)
    ensures
        v@.len() == text@.len() + 1,
        forall|j: int| 0 <= j <= text@.len() ==> v@[j] == byte_offset(text@, j),
{
    let total = byte_count(text);
    let cs = chars_of(text);
    let mut v: Vec<usize> = Vec::new();
    let mut acc: usize = 0;
    v.push(0);
    assert(text@.take(0) =~= Seq::<char>::empty());
    assert(encode_utf8(Seq::<char>::empty()) =~= Seq::<u8>::empty());
    let mut i: usize = 0;
    while i < cs.len()
        invariant
            cs@ == text@,
            i <= cs@.len(),
            total == byte_total(text@),
            acc == byte_offset(text@, i as int),
            v@.len() == i + 1,
            forall|j: int| 0 <= j <= i ==> v@[j] == byte_offset(text@, j),
        decreases cs@.len() - i,
    {
        proof {
            lemma_offset_step(text@, i as int);
            lemma_offset_mono(text@, i + 1, text@.len() as int);
            lemma_offset_end(text@);
        }
        acc = acc + char_len_utf8(cs[i]);
        v.push(acc);
        i += 1;
    }
    v
}

/// The first character starts at byte 0.
proof fn lemma_offset_zero(s: Seq<char>)
    ensures
        byte_offset(s, 0) == 0,
{
    assert(s.take(0) =~= Seq::<char>::empty());
    assert(encode_utf8(Seq::<char>::empty()) =~= Seq::<u8>::empty());
}

/// The first character index below `n` whose offset is at least `b`, or `n`.
fn first_at_or_after(offs: &Vec<usize>, n: usize, b: usize) -> (j: usize)
    requires
        offs@.len() == n + 1,
    ensures
        j <= n,
        forall|s: Seq<char>|
            s.len() == n && (forall|q: int| 0 <= q <= n ==> offs@[q] == #[trigger] byte_offset(s, q))
                ==> j == scan_ge(s, b as int, 0),
{
    let mut j: usize = 0;
    while j < n && offs[j] < b
        invariant
            offs@.len() == n + 1,
            j <= n,
            forall|s: Seq<char>|
                s.len() == n && (forall|q: int|
                    0 <= q <= n ==> offs@[q] == #[trigger] byte_offset(s, q)) ==> scan_ge(
                    s,
                    b as int,
                    0,
                ) == scan_ge(s, b as int, j as int),
        decreases n - j,
    {
        j += 1;
    }
    j
}

/// The characters with the one at index `k` left out.
fn without_char(cs: &Vec<char>, k: usize) -> (s: String)
    requires
        k < cs@.len(),
    ensures
        s@ == cs@.remove(k as int),
{
    let mut out: Vec<char> = Vec::new();
    let mut i: usize = 0;
    while i < cs.len()
        invariant
            i <= cs@.len(),
            k < cs@.len(),
            out@ == (if i <= k { cs@.take(i as int) } else { cs@.remove(k as int).take(i - 1) }),
        decreases cs@.len() - i,
    {
        if i != k {
            out.push(cs[i]);
        }
        proof {
            if i < k {
                assert(cs@.take(i as int).push(cs@[i as int]) =~= cs@.take(i + 1));
            } else if i == k {
                assert(cs@.take(k as int) =~= cs@.remove(k as int).take(k as int));
            } else {
                assert(cs@.remove(k as int).take(i - 1).push(cs@[i as int]) =~= cs@.remove(
                    k as int,
                ).take(i as int));
            }
        }
        i += 1;
    }
    assert(out@ =~= cs@.remove(k as int));
    string_of(out.as_slice())
}

impl<V> EditState<V> {
    /// A state with no edit in progress.
    pub fn new() -> (e: Self)
        ensures
            !e.editing,
            e.buffer@ == Seq::<char>::empty(),
            e.cursor_pos == 0,
            e.previous_value is None,
    {
        EditState { editing: false, buffer: String::new(), cursor_pos: 0, previous_value: None }
    }

    /// Starts an edit of `initial`, with the cursor at its end.
    pub fn start_edit(&mut self, initial: String)
        ensures
            final(self).editing,
            final(self).buffer@ == initial@,
            final(self).cursor_pos == byte_total(initial@),
            final(self).previous_value == old(self).previous_value,
    {
        self.editing = true;
        let n = byte_count(initial.as_str());
        self.buffer = initial;
        self.cursor_pos = n;
    }

    /// Inserts a character at the cursor, which moves past it.
    pub fn insert_char(&mut self, ch: char)
        requires
            is_boundary(old(self).buffer@, old(self).cursor_pos as int),
        ensures
            final(self).buffer@ == old(self).buffer@.insert(
                boundary_index(old(self).buffer@, old(self).cursor_pos as int),
                ch,
            ),
            final(self).cursor_pos == old(self).cursor_pos + encode_scalar(ch as u32).len(),
            final(self).editing == old(self).editing,
            final(self).previous_value == old(self).previous_value,
    {
        let ghost s = self.buffer@;
        let ghost k = boundary_index(s, self.cursor_pos as int);
        let offs = offsets_of(self.buffer.as_str());
        let cs = chars_of(self.buffer.as_str());
        let mut idx: usize = 0;
        while idx < cs.len() && offs[idx] != self.cursor_pos
            invariant
                cs@ == s,
                s == self.buffer@,
                offs@.len() == s.len() + 1,
                forall|j: int| 0 <= j <= s.len() ==> offs@[j] == byte_offset(s, j),
                0 <= k <= s.len(),
                byte_offset(s, k) == self.cursor_pos,
                idx <= k,
            decreases s.len() - idx,
        {
            proof {
                if idx == k {
                    assert(offs@[idx as int] == self.cursor_pos);
                }
            }
            idx += 1;
        }
        proof {
            if idx < k {
                lemma_offset_mono(s, idx as int, k);
            }
            assert(idx == k);
        }
        let mut out: Vec<char> = Vec::new();
        let mut i: usize = 0;
        while i < idx
            invariant
                i <= idx <= cs@.len(),
                out@ == cs@.take(i as int),
            decreases idx - i,
        {
            out.push(cs[i]);
            assert(cs@.take(i as int).push(cs@[i as int]) =~= cs@.take(i + 1));
            i += 1;
        }
        out.push(ch);
        let mut j: usize = idx;
        while j < cs.len()
            invariant
                idx <= j <= cs@.len(),
                out@ == cs@.take(idx as int).push(ch) + cs@.subrange(idx as int, j as int),
            decreases cs@.len() - j,
        {
            out.push(cs[j]);
            assert(cs@.take(idx as int).push(ch) + cs@.subrange(idx as int, j + 1) =~= (
            cs@.take(idx as int).push(ch) + cs@.subrange(idx as int, j as int)).push(cs@[j as int]));
            j += 1;
        }
        assert(out@ =~= s.insert(k, ch));
        let fresh = string_of(out.as_slice());
        let total = byte_count(fresh.as_str());
        let w = char_len_utf8(ch);
        proof {
            let t = fresh@;
            assert(t.take(k) =~= s.take(k));
            assert(t[k] == ch);
            lemma_offset_step(t, k);
            lemma_offset_mono(t, k + 1, t.len() as int);
            lemma_offset_end(t);
        }
        self.buffer = fresh;
        self.cursor_pos = self.cursor_pos + w;
    }

    /// Deletes the character at the cursor; nothing at the end of the buffer.
    pub fn delete_char(&mut self)
        requires
            old(self).cursor_pos < byte_total(old(self).buffer@) ==> is_boundary(
                old(self).buffer@,
                old(self).cursor_pos as int,
            ),
        ensures
            old(self).cursor_pos < byte_total(old(self).buffer@) ==> final(self).buffer@ == old(
                self,
            ).buffer@.remove(boundary_index(old(self).buffer@, old(self).cursor_pos as int)),
            old(self).cursor_pos >= byte_total(old(self).buffer@) ==> final(self).buffer@ == old(
                self,
            ).buffer@,
            final(self).cursor_pos == old(self).cursor_pos,
            final(self).editing == old(self).editing,
            final(self).previous_value == old(self).previous_value,
    {
        let total = byte_count(self.buffer.as_str());
        if self.cursor_pos >= total {
            return;
        }
        let ghost s = self.buffer@;
        let ghost k = boundary_index(s, self.cursor_pos as int);
        let offs = offsets_of(self.buffer.as_str());
        let cs = chars_of(self.buffer.as_str());
        proof {
            lemma_offset_end(s);
            if k == s.len() {
                assert(byte_offset(s, k) == byte_total(s));
            }
        }
        let mut idx: usize = 0;
        while idx < cs.len() && offs[idx] != self.cursor_pos
            invariant
                cs@ == s,
                s == self.buffer@,
                offs@.len() == s.len() + 1,
                forall|j: int| 0 <= j <= s.len() ==> offs@[j] == byte_offset(s, j),
                0 <= k < s.len(),
                byte_offset(s, k) == self.cursor_pos,
                idx <= k,
            decreases s.len() - idx,
        {
            proof {
                if idx == k {
                    assert(offs@[idx as int] == self.cursor_pos);
                }
            }
            idx += 1;
        }
        proof {
            if idx < k {
                lemma_offset_mono(s, idx as int, k);
            }
        }
        self.buffer = without_char(&cs, idx);
        proof {
            assert(idx == k);
        }
    }

    /// Deletes the character before the cursor, which moves to where that
    /// character began.
    pub fn backspace(&mut self)
        requires
            old(self).cursor_pos > 0 ==> old(self).buffer@.len() > 0,
        ensures
            old(self).cursor_pos == 0 ==> final(self).buffer@ == old(self).buffer@
                && final(self).cursor_pos == 0,
            old(self).cursor_pos > 0 ==> {
                let s = old(self).buffer@;
                let j = scan_ge(s, old(self).cursor_pos as int, 0);
                final(self).buffer@ == s.remove(j - 1) && final(self).cursor_pos == byte_offset(
                    s,
                    j - 1,
                )
            },
            final(self).editing == old(self).editing,
            final(self).previous_value == old(self).previous_value,
    {
        if self.cursor_pos == 0 {
            return;
        }
        let ghost s = self.buffer@;
        let offs = offsets_of(self.buffer.as_str());
        let cs = chars_of(self.buffer.as_str());
        let j = first_at_or_after(&offs, cs.len(), self.cursor_pos);
        proof {
            lemma_scan_ge_bounds(s, self.cursor_pos as int, 0);
            lemma_offset_zero(s);
        }
        self.buffer = without_char(&cs, j - 1);
        self.cursor_pos = offs[j - 1];
    }

    /// Moves the cursor to where the character before it begins.
    pub fn move_cursor_left(&mut self)
        ensures
            old(self).cursor_pos == 0 ==> final(self).cursor_pos == 0,
            old(self).cursor_pos > 0 ==> final(self).cursor_pos == (if old(self).buffer@.len() > 0 {
                byte_offset(
                    old(self).buffer@,
                    scan_ge(old(self).buffer@, old(self).cursor_pos as int, 0) - 1,
                )
            } else {
                0
            }),
            final(self).buffer == old(self).buffer,
            final(self).editing == old(self).editing,
            final(self).previous_value == old(self).previous_value,
    {
        if self.cursor_pos == 0 {
            return;
        }
        let ghost s = self.buffer@;
        let offs = offsets_of(self.buffer.as_str());
        let n = chars_of(self.buffer.as_str()).len();
        if n == 0 {
            self.cursor_pos = 0;
            return;
        }
        let j = first_at_or_after(&offs, n, self.cursor_pos);
        proof {
            lemma_scan_ge_bounds(s, self.cursor_pos as int, 0);
            lemma_offset_zero(s);
        }
        self.cursor_pos = offs[j - 1];
    }

    /// Moves the cursor to where the character after it begins, or to the
    /// end of the buffer.
    pub fn move_cursor_right(&mut self)
        ensures
            old(self).cursor_pos < byte_total(old(self).buffer@) ==> final(self).cursor_pos
                == byte_offset(
                old(self).buffer@,
                scan_gt(old(self).buffer@, old(self).cursor_pos as int, 0),
            ),
            old(self).cursor_pos >= byte_total(old(self).buffer@) ==> final(self).cursor_pos == old(
                self,
            ).cursor_pos,
            final(self).buffer == old(self).buffer,
            final(self).editing == old(self).editing,
            final(self).previous_value == old(self).previous_value,
    {
        let total = byte_count(self.buffer.as_str());
        if self.cursor_pos >= total {
            return;
        }
        let ghost s = self.buffer@;
        let offs = offsets_of(self.buffer.as_str());
        let n = chars_of(self.buffer.as_str()).len();
        let mut j: usize = 0;
        while j < n && offs[j] <= self.cursor_pos
            invariant
                n == s.len(),
                s == self.buffer@,
                offs@.len() == s.len() + 1,
                forall|q: int| 0 <= q <= s.len() ==> offs@[q] == byte_offset(s, q),
                j <= n,
                scan_gt(s, self.cursor_pos as int, 0) == scan_gt(s, self.cursor_pos as int, j as int),
            decreases n - j,
        {
            j += 1;
        }
        self.cursor_pos = offs[j];
    }

    /// Ends the edit and hands out the buffer, leaving the state empty.
    pub fn commit_buffer(&mut self) -> (r: String)
        ensures
            r@ == old(self).buffer@,
            !final(self).editing,
            final(self).buffer@ == Seq::<char>::empty(),
            final(self).cursor_pos == 0,
            final(self).previous_value is None,
    {
        self.editing = false;
        let mut taken = String::new();
        std::mem::swap(&mut taken, &mut self.buffer);
        self.cursor_pos = 0;
        self.previous_value = None;
        taken
    }

    /// Ends the edit without keeping the buffer and hands out the value the
    /// cell had before it.
    pub fn cancel(&mut self) -> (r: Option<V>)
        ensures
            r == old(self).previous_value,
            !final(self).editing,
            final(self).buffer@ == Seq::<char>::empty(),
            final(self).cursor_pos == 0,
            final(self).previous_value is None,
    {
        self.editing = false;
        self.buffer = String::new();
        self.cursor_pos = 0;
        let mut prev: Option<V> = None;
        std::mem::swap(&mut prev, &mut self.previous_value);
        prev
    }
}

impl<V> Default for EditState<V> {
    fn default() -> (e: Self)
        ensures
            !e.editing,
            e.buffer@ == Seq::<char>::empty(),
            e.cursor_pos == 0,
            e.previous_value is None,
    {
        EditState::new()
    }
}

} // verus!
