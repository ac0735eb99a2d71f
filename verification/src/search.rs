//! Incremental search within output lines: exact substring matching with
//! smart case, fuzzy (subsequence) matching, and navigation between matches.
use vstd::prelude::*;
use vstd::utf8::{encode_utf8, encode_scalar, is_char_boundary};
use crate::text::{chars_of, str_is_empty, byte_count, char_len_utf8, to_lowercase, lowercase, char_is_uppercase,
    is_upper, occurs_at, occurs_at_exec, byte_offset, lemma_offset_step, lemma_offset_end, push_char,
    pop_char, is_ascii_text, ascii_lower};
use crate::tags::first_index_from;

verus! {

/// A match: the row and the byte range it covers in that row's text.
#[derive(Debug, Clone, Copy)]
pub struct SearchMatch {
    pub row: usize,
    pub byte_start: usize,
    pub byte_end: usize,
}

/// How a query matches.
#[derive(Debug, Clone, Copy, PartialEq, Eq, Structural)]
pub enum SearchMode {
    /// Substring match, case-insensitive unless the query has an uppercase letter.
    Substring,
    /// Fuzzy match: the query's characters in order, not necessarily adjacent.
    Fuzzy,
}

/// State of the search overlay.
pub struct OutputSearch {
    /// Whether the overlay is visible and captures input.
    pub active: bool,
    /// The query.
    pub query: String,
    /// All matches, by row and then by start.
    pub matches: Vec<SearchMatch>,
    /// Index of the highlighted match.
    pub current: usize,
    /// The matching mode.
    pub mode: SearchMode,
    /// Whether rendering should scroll to the current match.
    pub scroll_to_current: bool,
}

// ── Specification ───────────────────────────────────────────────────────────

/// The query has an uppercase character.
pub open spec fn has_upper(q: Seq<char>) -> bool {
    exists|i: int| 0 <= i < q.len() && is_upper(#[trigger] q[i])
}

/// The text a line is searched in: itself, or its lowercase form.
pub open spec fn searched(line: Seq<char>, case_sensitive: bool) -> Seq<char> {
    if case_sensitive { line } else { lowercase(line) }
}

/// The match of `q` at character `i` of row `row`, in bytes.
pub open spec fn match_at(row: int, h: Seq<char>, q: Seq<char>, i: int) -> SearchMatch {
    SearchMatch {
        row: row as usize,
        byte_start: byte_offset(h, i) as usize,
        byte_end: (byte_offset(h, i) + encode_utf8(q).len()) as usize,
    }
}

/// The occurrences of `q` in `h` from character `i` on, in order.
pub open spec fn substring_hits(row: int, h: Seq<char>, q: Seq<char>, i: int) -> Seq<SearchMatch>
    decreases h.len() + 1 - i,
{
    if i < 0 || i > h.len() {
        seq![]
    } else if occurs_at(h, q, i) {
        seq![match_at(row, h, q, i)] + substring_hits(row, h, q, i + 1)
    } else {
        substring_hits(row, h, q, i + 1)
    }
}

/// Substring matches of `q` in the first `n` lines.
pub open spec fn substring_search(lines: Seq<Seq<char>>, q: Seq<char>, case_sensitive: bool, n: int) -> Seq<
    SearchMatch,
>
    decreases n,
{
    if n <= 0 || n > lines.len() {
        seq![]
    } else {
        substring_search(lines, q, case_sensitive, n - 1) + substring_hits(
            n - 1,
            searched(lines[n - 1], case_sensitive),
            q,
            0,
        )
    }
}

/// Scanning `h` from character `i` with `ni` needle characters matched: the
/// index of the character that completes the match.
pub open spec fn fuzzy_scan(h: Seq<char>, nd: Seq<char>, i: int, ni: int) -> Option<int>
    decreases h.len() - i,
{
    if i < 0 || i >= h.len() || ni < 0 || ni >= nd.len() {
        None
    } else if h[i] == nd[ni] {
        if ni + 1 == nd.len() { Some(i) } else { fuzzy_scan(h, nd, i + 1, ni + 1) }
    } else {
        fuzzy_scan(h, nd, i + 1, ni)
    }
}

/// The byte range from the first to the last character of a greedy fuzzy
/// match of `nd` in `h`.
pub open spec fn fuzzy_range(h: Seq<char>, nd: Seq<char>) -> Option<(int, int)> {
    if nd.len() == 0 {
        None
    } else {
        match fuzzy_scan(h, nd, 0, 0) {
            Some(e) => match first_index_from(h, nd[0], 0) {
                Some(s) => Some((byte_offset(h, s), byte_offset(h, e + 1))),
                None => None,
            },
            None => None,
        }
    }
}

/// Fuzzy matches of `nd` in the lowercase forms of the first `n` lines.
pub open spec fn fuzzy_search(lines: Seq<Seq<char>>, nd: Seq<char>, n: int) -> Seq<SearchMatch>
    decreases n,
{
    if n <= 0 || n > lines.len() {
        seq![]
    } else {
        let here = match fuzzy_range(lowercase(lines[n - 1]), nd) {
            Some((s, e)) => seq![SearchMatch { row: (n - 1) as usize, byte_start: s as usize, byte_end: e as usize }],
            None => seq![],
        };
        fuzzy_search(lines, nd, n - 1) + here
    }
}

/// The query a substring search looks for, after smart case.
pub open spec fn effective_query(q: Seq<char>) -> Seq<char> {
    if has_upper(q) { q } else { lowercase(q) }
}

/// The query has an ASCII capital letter.
pub open spec fn ascii_has_upper(q: Seq<char>) -> bool {
    exists|i: int| 0 <= i < q.len() && 'A' <= #[trigger] q[i] && q[i] <= 'Z'
}

/// A text with its ASCII capital letters made small.
pub open spec fn ascii_lowered(s: Seq<char>) -> Seq<char> {
    s.map_values(|c: char| ascii_lower(c))
}

/// Substring matches of an ASCII query in ASCII lines: case-sensitive when
/// the query has a capital letter, else over the lines and query with their
/// capitals made small.
pub open spec fn ascii_substring_results(ls: Seq<Seq<char>>, q: Seq<char>) -> Seq<SearchMatch> {
    if ascii_has_upper(q) {
        substring_search(ls, q, true, ls.len() as int)
    } else {
        substring_search(ls.map_values(|l: Seq<char>| ascii_lowered(l)), ascii_lowered(q), true, ls.len() as int)
    }
}

/// Every line is ASCII.
pub open spec fn ascii_lines(ls: Seq<Seq<char>>) -> bool {
    forall|r: int| 0 <= r < ls.len() ==> is_ascii_text(#[trigger] ls[r])
}

/// Searching in each line's searched form is a case-sensitive search in
/// those forms.
proof fn lemma_search_in_forms(ls: Seq<Seq<char>>, ls2: Seq<Seq<char>>, q: Seq<char>, cs: bool, n: int)
    requires
        0 <= n <= ls.len(),
        ls.len() == ls2.len(),
        forall|r: int| 0 <= r < n ==> searched(ls[r], cs) == #[trigger] ls2[r],
    ensures
        substring_search(ls, q, cs, n) == substring_search(ls2, q, true, n),
    decreases n,
{
    if n > 0 {
        lemma_search_in_forms(ls, ls2, q, cs, n - 1);
        assert(searched(ls[n - 1], cs) == ls2[n - 1]);
    }
}

/// All matches of a non-empty query in the lines.
pub open spec fn search_results(lines: Seq<Seq<char>>, q: Seq<char>, mode: SearchMode) -> Seq<SearchMatch> {
    match mode {
        SearchMode::Substring => substring_search(lines, effective_query(q), has_upper(q), lines.len() as int),
        SearchMode::Fuzzy => fuzzy_search(lines, lowercase(q), lines.len() as int),
    }
}

/// The match after `c` among `n`, wrapping after the last.
pub open spec fn next_index(c: int, n: int) -> int {
    (c + 1) % n
}

/// The match before `c` among `n`, wrapping before the first.
pub open spec fn prev_index(c: int, n: int) -> int {
    if c == 0 { n - 1 } else { c - 1 }
}

/// Stepping to the next match and back to the previous one (or the other way
/// round) returns to the same match.
pub proof fn lemma_next_prev_inverse(c: int, n: int)
    requires
        0 <= c < n,
    ensures
        prev_index(next_index(c, n), n) == c,
        next_index(prev_index(c, n), n) == c,
        0 <= next_index(c, n) < n,
        0 <= prev_index(c, n) < n,
{
    if c + 1 < n {
        vstd::arithmetic::div_mod::lemma_small_mod((c + 1) as nat, n as nat);
    } else {
        vstd::arithmetic::div_mod::lemma_mod_self_0(n);
    }
    if c == 0 {
        vstd::arithmetic::div_mod::lemma_mod_self_0(n);
    } else {
        vstd::arithmetic::div_mod::lemma_small_mod(c as nat, n as nat);
    }
}

/// Distance between two rows.
pub open spec fn row_dist(a: int, b: int) -> int {
    if a >= b { a - b } else { b - a }
}

/// Index, among the first `k + 1` matches, of the first one nearest to row `p`.
pub open spec fn nearest_match(ms: Seq<SearchMatch>, p: int, k: int) -> int
    decreases k,
{
    if k <= 0 {
        0
    } else {
        let b = nearest_match(ms, p, k - 1);
        if row_dist(ms[k].row as int, p) < row_dist(ms[b].row as int, p) { k } else { b }
    }
}

/// Where the highlight goes after the matches are recomputed: the first match
/// nearest to the row of the previously current one, else the first.
pub open spec fn new_current(ms: Seq<SearchMatch>, prev: Option<int>) -> int {
    if ms.len() == 0 {
        0
    } else {
        match prev {
            Some(p) => nearest_match(ms, p, ms.len() - 1),
            None => 0,
        }
    }
}

/// The row of the current match, if the index names one.
pub open spec fn current_row(s: &OutputSearch) -> Option<int> {
    if s.current < s.matches@.len() { Some(s.matches@[s.current as int].row as int) } else { None }
}

// ── Matching ────────────────────────────────────────────────────────────────

/// The byte range of a greedy fuzzy (subsequence) match of `needle_chars` in
/// `haystack`, from the first to the last matched character.
pub fn fuzzy_match_range(haystack: &str, needle_chars: &[char]) -> (r: Option<(usize, usize)>)
    ensures
        match fuzzy_range(haystack@, needle_chars@) {
            Some((s, e)) => r == Some((s as usize, e as usize)) && s <= e,
            None => r is None,
        },
{
    if needle_chars.len() == 0 {
        return None;
    }
    let v = chars_of(haystack);
    let total = byte_count(haystack);
    let ghost h = haystack@;
    let ghost nd = needle_chars@;
    proof { lemma_offset_end(h); }
    let mut ni: usize = 0;
    let mut first: usize = 0;
    let ghost mut gf: int = 0;
    let mut off: usize = 0;
    let mut i: usize = 0;
    assert(h.take(0) =~= Seq::<char>::empty());
    while i < v.len()
        invariant
            v@ == h,
            h == haystack@,
            nd == needle_chars@,
            nd.len() > 0,
            i <= h.len(),
            ni < nd.len(),
            off == byte_offset(h, i as int),
            total == byte_offset(h, h.len() as int),
            fuzzy_scan(h, nd, 0, 0) == fuzzy_scan(h, nd, i as int, ni as int),
            ni == 0 ==> first_index_from(h, nd[0], 0) == first_index_from(h, nd[0], i as int),
            ni > 0 ==> first_index_from(h, nd[0], 0) == Some(gf) && 0 <= gf < i && first == byte_offset(h, gf),
        decreases h.len() - i,
    {
        let c = v[i];
        let n = char_len_utf8(c);
        proof {
            lemma_offset_step(h, i as int);
            lemma_offset_mono(h, i + 1, h.len() as int);
        }
        if c == needle_chars[ni] {
            assert(fuzzy_scan(h, nd, i as int, ni as int) == (if ni + 1 == nd.len() {
                Some(i as int)
            } else {
                fuzzy_scan(h, nd, i + 1, ni + 1)
            }));
            if ni == 0 {
                first = off;
                proof { gf = i as int; }
                assert(first_index_from(h, nd[0], i as int) == Some(i as int));
            }
            ni += 1;
            if ni == needle_chars.len() {
                proof { lemma_offset_mono(h, gf, i as int); }
                assert(fuzzy_scan(h, nd, 0, 0) == Some(i as int));
                return Some((first, off + n));
            }
        } else {
            if ni == 0 {
                assert(first_index_from(h, nd[0], i as int) == first_index_from(h, nd[0], i + 1));
            }
        }
        off += n;
        i += 1;
    }
    None
}

/// Offsets grow along the text.
proof fn lemma_offset_mono(h: Seq<char>, i: int, j: int)
    requires
        0 <= i <= j <= h.len(),
    ensures
        byte_offset(h, i) <= byte_offset(h, j),
    decreases j - i,
{
    if i < j {
        lemma_offset_step(h, j - 1);
        lemma_offset_mono(h, i, j - 1);
    }
}

/// The substring matches of `q` in one row's text.
fn row_substring_hits(out: &mut Vec<SearchMatch>, row: usize, h: &str, q: &[char], qbytes: usize)
    requires
        qbytes == encode_utf8(q@).len(),
    ensures
        final(out)@ == old(out)@ + substring_hits(row as int, h@, q@, 0),
{
    let v = chars_of(h);
    let total = byte_count(h);
    let ghost s = h@;
    proof { lemma_offset_end(s); }
    let mut off: usize = 0;
    let mut i: usize = 0;
    assert(s.take(0) =~= Seq::<char>::empty());
    loop
        invariant
            v@ == s,
            s == h@,
            i <= s.len(),
            qbytes == encode_utf8(q@).len(),
            off == byte_offset(s, i as int),
            total == byte_offset(s, s.len() as int),
            out@ + substring_hits(row as int, s, q@, i as int) == old(out)@ + substring_hits(
                row as int,
                s,
                q@,
                0,
            ),
        decreases s.len() - i,
    {
        let ghost before = out@;
        if occurs_at_exec(v.as_slice(), q, i) {
            proof {
                lemma_offset_concat_fits(s, q@, i as int);
                lemma_offset_mono(s, i + q@.len(), s.len() as int);
            }
            out.push(SearchMatch { row, byte_start: off, byte_end: off + qbytes });
            assert(out@ + substring_hits(row as int, s, q@, i + 1) =~= before + substring_hits(
                row as int,
                s,
                q@,
                i as int,
            ));
        } else {
            assert(substring_hits(row as int, s, q@, i as int) == substring_hits(row as int, s, q@, i + 1));
        }
        assert(out@ + substring_hits(row as int, s, q@, i + 1) == old(out)@ + substring_hits(row as int, s, q@, 0));
        if i == v.len() {
            assert(substring_hits(row as int, s, q@, i + 1) =~= Seq::<SearchMatch>::empty());
            assert(out@ =~= out@ + Seq::<SearchMatch>::empty());
            assert(s == h@);
            return;
        }
        let n = char_len_utf8(v[i]);
        proof {
            lemma_offset_step(s, i as int);
            lemma_offset_mono(s, i + 1, s.len() as int);
        }
        off += n;
        i += 1;
    }
}

/// Where `q` occurs at `i`, the bytes before it and its own bytes reach
/// exactly the offset of the character after it.
proof fn lemma_offset_concat_fits(s: Seq<char>, q: Seq<char>, i: int)
    requires
        occurs_at(s, q, i),
    ensures
        byte_offset(s, i) + encode_utf8(q).len() == byte_offset(s, i + q.len()),
{
    assert(s.take(i + q.len()) =~= s.take(i) + q);
    crate::text::lemma_encode_concat(s.take(i), q);
}

impl Default for OutputSearch {
    fn default() -> (r: Self)
        ensures
            !r.active,
            r.query@ == Seq::<char>::empty(),
            r.matches@ == Seq::<SearchMatch>::empty(),
            r.current == 0,
            r.mode == SearchMode::Substring,
            !r.scroll_to_current,
    {
        OutputSearch::new()
    }
}

impl OutputSearch {
    /// A closed search: empty query, no matches, substring mode.
    pub fn new() -> (r: Self)
        ensures
            !r.active,
            r.query@ == Seq::<char>::empty(),
            r.matches@ == Seq::<SearchMatch>::empty(),
            r.current == 0,
            r.mode == SearchMode::Substring,
            !r.scroll_to_current,
    {
        OutputSearch {
            active: false,
            query: String::new(),
            matches: Vec::new(),
            current: 0,
            mode: SearchMode::Substring,
            scroll_to_current: false,
        }
    }

    /// Open the overlay with an empty query.
    pub fn activate(&mut self)
        ensures
            final(self).active,
            final(self).query@ == Seq::<char>::empty(),
            final(self).matches@ == Seq::<SearchMatch>::empty(),
            final(self).current == 0,
            final(self).mode == old(self).mode,
            !final(self).scroll_to_current,
    {
        self.active = true;
        self.query = String::new();
        self.matches = Vec::new();
        self.current = 0;
        self.scroll_to_current = false;
    }

    /// Close the overlay; the matches stay for navigation.
    pub fn deactivate(&mut self)
        ensures
            !final(self).active,
            final(self).query@ == old(self).query@,
            final(self).matches@ == old(self).matches@,
            final(self).current == old(self).current,
            final(self).mode == old(self).mode,
            final(self).scroll_to_current == old(self).scroll_to_current,
    {
        self.active = false;
    }

    /// Close the overlay and clear query and matches.
    pub fn cancel(&mut self)
        ensures
            !final(self).active,
            final(self).query@ == Seq::<char>::empty(),
            final(self).matches@ == Seq::<SearchMatch>::empty(),
            final(self).current == 0,
            final(self).mode == old(self).mode,
            !final(self).scroll_to_current,
    {
        self.active = false;
        self.query = String::new();
        self.matches = Vec::new();
        self.current = 0;
        self.scroll_to_current = false;
    }

    /// Append a character to the query.
    pub fn type_char(&mut self, c: char)
        ensures
            final(self).query@ == old(self).query@.push(c),
            final(self).active == old(self).active,
            final(self).matches@ == old(self).matches@,
            final(self).current == old(self).current,
            final(self).mode == old(self).mode,
            final(self).scroll_to_current == old(self).scroll_to_current,
    {
        push_char(&mut self.query, c);
    }

    /// Remove the last character of the query, if any.
    pub fn backspace(&mut self)
        ensures
            final(self).query@ == (if old(self).query@.len() > 0 {
                old(self).query@.drop_last()
            } else {
                old(self).query@
            }),
            final(self).active == old(self).active,
            final(self).matches@ == old(self).matches@,
            final(self).current == old(self).current,
            final(self).mode == old(self).mode,
            final(self).scroll_to_current == old(self).scroll_to_current,
    {
        let _ = pop_char(&mut self.query);
    }

    /// Switch between substring and fuzzy mode.
    pub fn toggle_mode(&mut self)
        ensures
            final(self).mode == (if old(self).mode == SearchMode::Substring {
                SearchMode::Fuzzy
            } else {
                SearchMode::Substring
            }),
            final(self).active == old(self).active,
            final(self).query@ == old(self).query@,
            final(self).matches@ == old(self).matches@,
            final(self).current == old(self).current,
            final(self).scroll_to_current == old(self).scroll_to_current,
    {
        self.mode = match self.mode {
            SearchMode::Substring => SearchMode::Fuzzy,
            SearchMode::Fuzzy => SearchMode::Substring,
        };
    }

    /// Highlight the next match, wrapping after the last.
    pub fn next_match(&mut self)
        requires
            old(self).matches@.len() > 0 ==> old(self).current < usize::MAX,
        ensures
            final(self).current == (if old(self).matches@.len() > 0 {
                next_index(old(self).current as int, old(self).matches@.len() as int)
            } else {
                old(self).current as int
            }),
            final(self).active == old(self).active,
            final(self).query@ == old(self).query@,
            final(self).matches@ == old(self).matches@,
            final(self).mode == old(self).mode,
            final(self).scroll_to_current == old(self).scroll_to_current,
    {
        if self.matches.len() > 0 {
            self.current = (self.current + 1) % self.matches.len();
        }
    }

    /// Highlight the previous match, wrapping before the first.
    pub fn prev_match(&mut self)
        ensures
            final(self).current == (if old(self).matches@.len() == 0 {
                old(self).current as int
            } else {
                prev_index(old(self).current as int, old(self).matches@.len() as int)
            }),
            final(self).active == old(self).active,
            final(self).query@ == old(self).query@,
            final(self).matches@ == old(self).matches@,
            final(self).mode == old(self).mode,
            final(self).scroll_to_current == old(self).scroll_to_current,
    {
        if self.matches.len() > 0 {
            self.current = if self.current == 0 {
                self.matches.len() - 1
            } else {
                self.current - 1
            };
        }
    }

    /// The row of the current match, for scrolling.
    pub fn current_match_row(&self) -> (r: Option<usize>)
        ensures
            r == (if self.current < self.matches@.len() {
                Some(self.matches@[self.current as int].row)
            } else {
                None
            }),
    {
        if self.current < self.matches.len() {
            Some(self.matches[self.current].row)
        } else {
            None
        }
    }

    /// Whether there is a query with matches.
    pub fn has_matches(&self) -> (r: bool)
        ensures
            r == (self.query@.len() > 0 && self.matches@.len() > 0),
    {
        !str_is_empty(self.query.as_str()) && self.matches.len() > 0
    }

    /// Whether the query is non-empty.
    pub fn has_query(&self) -> (r: bool)
        ensures
            r == (self.query@.len() > 0),
    {
        !str_is_empty(self.query.as_str())
    }

    /// Recompute the matches against the plain text lines, keeping the
    /// highlight near the row of the previous current match. A substring
    /// search finds every occurrence, each on character boundaries.
    pub fn update_matches(&mut self, plain_lines: &[String])
        requires
            plain_lines@.len() <= isize::MAX,
            current_row(old(self)) matches Some(p) ==> p <= isize::MAX,
        ensures
            final(self).active == old(self).active,
            final(self).query@ == old(self).query@,
            final(self).mode == old(self).mode,
            final(self).scroll_to_current == old(self).scroll_to_current,
            old(self).query@.len() == 0 ==> final(self).matches@ == Seq::<SearchMatch>::empty()
                && final(self).current == 0,
            old(self).query@.len() > 0 ==> final(self).matches@ == search_results(plain_lines.deep_view(), old(self).query@, old(self).mode)
                && final(self).current == new_current(final(self).matches@, current_row(old(self))),
            old(self).query@.len() > 0 && old(self).mode == SearchMode::Substring && is_ascii_text(old(self).query@)
                && ascii_lines(plain_lines.deep_view()) ==> final(self).matches@ == ascii_substring_results(
                plain_lines.deep_view(),
                old(self).query@,
            ),
    {
        let prev_row = self.current_match_row();
        if str_is_empty(self.query.as_str()) {
            self.matches = Vec::new();
            self.current = 0;
            return;
        }
        let ms = match self.mode {
            SearchMode::Substring => find_substring_matches(self.query.as_str(), plain_lines),
            SearchMode::Fuzzy => find_fuzzy_matches(self.query.as_str(), plain_lines),
        };
        let cur = match prev_row {
            Some(prev) => nearest_index(&ms, prev),
            None => 0,
        };
        self.matches = ms;
        self.current = cur;
    }
}

/// Whether a query has an uppercase character.
fn query_has_upper(q: &str) -> (r: bool)
    ensures
        r == has_upper(q@),
        is_ascii_text(q@) ==> (r == ascii_has_upper(q@)),
{
    let v = chars_of(q);
    let mut i: usize = 0;
    while i < v.len()
        invariant
            v@ == q@,
            i <= v@.len(),
            forall|j: int| 0 <= j < i ==> !is_upper(#[trigger] v@[j]),
            is_ascii_text(q@) ==> forall|j: int| 0 <= j < i ==> !('A' <= #[trigger] q@[j] && q@[j] <= 'Z'),
        decreases v@.len() - i,
    {
        if char_is_uppercase(v[i]) {
            return true;
        }
        proof {
            if is_ascii_text(q@) {
                assert((q@[i as int] as u32) < 0x80);
            }
        }
        i += 1;
    }
    false
}

/// All substring matches: every occurrence of the query, at every character
/// of every line, with its byte range.
fn find_substring_matches(query: &str, plain_lines: &[String]) -> (r: Vec<SearchMatch>)
    requires
        query@.len() > 0,
    ensures
        r@ == search_results(plain_lines.deep_view(), query@, SearchMode::Substring),
        is_ascii_text(query@) && ascii_lines(plain_lines.deep_view()) ==> r@ == ascii_substring_results(
            plain_lines.deep_view(),
            query@,
        ),
{
    let ghost ls = plain_lines.deep_view();
    let case_sensitive = query_has_upper(query);
    let q: String = if case_sensitive { query.to_string() } else { to_lowercase(query) };
    let qv = chars_of(q.as_str());
    let qbytes = byte_count(q.as_str());
    let ghost eq = effective_query(query@);
    let ghost ascii = is_ascii_text(query@) && ascii_lines(ls);
    let ghost forms = if case_sensitive { ls } else { ls.map_values(|l: Seq<char>| ascii_lowered(l)) };
    assert(qv@ == eq);
    let mut out: Vec<SearchMatch> = Vec::new();
    let mut row: usize = 0;
    while row < plain_lines.len()
        invariant
            ls == plain_lines.deep_view(),
            row <= ls.len(),
            qv@ == eq,
            eq == effective_query(query@),
            case_sensitive == has_upper(query@),
            qbytes == encode_utf8(eq).len(),
            out@ == substring_search(ls, eq, case_sensitive, row as int),
            ascii == (is_ascii_text(query@) && ascii_lines(ls)),
            forms == (if case_sensitive { ls } else { ls.map_values(|l: Seq<char>| ascii_lowered(l)) }),
            ascii ==> forall|r: int| 0 <= r < row ==> searched(ls[r], case_sensitive) == #[trigger] forms[r],
        decreases ls.len() - row,
    {
        let hay: String = if case_sensitive { plain_lines[row].clone() } else { to_lowercase(
            plain_lines[row].as_str(),
        ) };
        assert(hay@ == searched(ls[row as int], case_sensitive));
        proof {
            if ascii {
                assert(is_ascii_text(ls[row as int]));
                if !case_sensitive {
                    assert(forms[row as int] == ascii_lowered(ls[row as int]));
                    assert(hay@ =~= ascii_lowered(ls[row as int]));
                }
            }
        }
        row_substring_hits(&mut out, row, hay.as_str(), qv.as_slice(), qbytes);
        row += 1;
    }
    proof {
        if ascii {
            lemma_search_in_forms(ls, forms, eq, case_sensitive, ls.len() as int);
            if !case_sensitive {
                assert(eq == lowercase(query@));
                assert(q@ == eq);
                assert(eq =~= ascii_lowered(query@));
            }
        }
    }
    out
}


/// All fuzzy matches: one per row at most.
fn find_fuzzy_matches(query: &str, plain_lines: &[String]) -> (r: Vec<SearchMatch>)
    ensures
        r@ == fuzzy_search(plain_lines.deep_view(), lowercase(query@), plain_lines@.len() as int),
{
    let ghost ls = plain_lines.deep_view();
    let q = to_lowercase(query);
    let qv = chars_of(q.as_str());
    let mut out: Vec<SearchMatch> = Vec::new();
    if qv.len() == 0 {
        proof { lemma_fuzzy_empty(ls, qv@, ls.len() as int); }
        return out;
    }
    let mut row: usize = 0;
    while row < plain_lines.len()
        invariant
            ls == plain_lines.deep_view(),
            row <= ls.len(),
            qv@ == lowercase(query@),
            out@ == fuzzy_search(ls, qv@, row as int),
        decreases ls.len() - row,
    {
        let lower = to_lowercase(plain_lines[row].as_str());
        assert(lower@ == lowercase(ls[row as int]));
        match fuzzy_match_range(lower.as_str(), qv.as_slice()) {
            Some((s, e)) => {
                out.push(SearchMatch { row, byte_start: s, byte_end: e });
            },
            None => {},
        }
        row += 1;
    }
    out
}

proof fn lemma_fuzzy_empty(ls: Seq<Seq<char>>, nd: Seq<char>, n: int)
    requires
        nd.len() == 0,
        n <= ls.len(),
    ensures
        fuzzy_search(ls, nd, n) == Seq::<SearchMatch>::empty(),
    decreases n,
{
    if n > 0 {
        lemma_fuzzy_empty(ls, nd, n - 1);
    }
}

/// Index of the first match nearest to row `prev`.
fn nearest_index(ms: &Vec<SearchMatch>, prev: usize) -> (r: usize)
    ensures
        r == new_current(ms@, Some(prev as int)),
{
    if ms.len() == 0 {
        return 0;
    }
    let mut best: usize = 0;
    let mut best_d: usize = if ms[0].row >= prev { ms[0].row - prev } else { prev - ms[0].row };
    let mut k: usize = 1;
    while k < ms.len()
        invariant
            1 <= k <= ms@.len(),
            best == nearest_match(ms@, prev as int, k - 1),
            best < ms@.len(),
            best_d == row_dist(ms@[best as int].row as int, prev as int),
        decreases ms@.len() - k,
    {
        let d = if ms[k].row >= prev { ms[k].row - prev } else { prev - ms[k].row };
        if d < best_d {
            best = k;
            best_d = d;
        }
        k += 1;
    }
    best
}


// ── Highlighting ────────────────────────────────────────────────────────────

/// How a piece of a highlighted row is drawn.
#[derive(Debug, Clone, Copy, PartialEq, Eq, Structural)]
pub enum SegmentKind {
    /// The row's own style.
    Plain,
    /// A match.
    Match,
    /// The current match.
    Current,
}

/// A byte range of a row's text and how it is drawn.
#[derive(Debug, Clone, Copy, PartialEq, Eq)]
pub struct Segment {
    pub start: usize,
    pub end: usize,
    pub kind: SegmentKind,
}

/// The highlighting of one row: whether it holds matches and text (its base
/// style is then kept aside), and the pieces it is redrawn from (none: the
/// row stays as it is).
#[derive(Debug, Clone)]
pub struct RowHighlight {
    pub touched: bool,
    pub segments: Vec<Segment>,
}

/// The pieces a row's text `b` (its bytes) is cut into by matches `lo..k`,
/// and the byte position reached: before each match whose clamped range
/// falls on character boundaries, the plain gap from the position, then the
/// match from where the gap ended.
pub open spec fn segs_upto(b: Seq<u8>, ms: Seq<SearchMatch>, lo: int, k: int, current: int) -> (
    Seq<Segment>,
    int,
)
    decreases k - lo,
{
    if k <= lo {
        (Seq::empty(), 0)
    } else {
        let (segs, pos) = segs_upto(b, ms, lo, k - 1, current);
        let m = ms[k - 1];
        let bs: int = if m.byte_start < b.len() { m.byte_start as int } else { b.len() as int };
        let be: int = if m.byte_end < b.len() { m.byte_end as int } else { b.len() as int };
        if !is_char_boundary(b, bs) || !is_char_boundary(b, be) {
            (segs, pos)
        } else {
            let kind = if k - 1 == current { SegmentKind::Current } else { SegmentKind::Match };
            let s1 = if bs > pos && is_char_boundary(b, pos) {
                segs.push(Segment { start: pos as usize, end: bs as usize, kind: SegmentKind::Plain })
            } else {
                segs
            };
            let st = if bs > pos { bs } else { pos };
            let s2 = if st < be && is_char_boundary(b, st) {
                s1.push(Segment { start: st as usize, end: be as usize, kind })
            } else {
                s1
            };
            (s2, be)
        }
    }
}

/// The pieces of a row for matches `lo..hi`, with the plain remainder.
pub open spec fn row_segments(b: Seq<u8>, ms: Seq<SearchMatch>, lo: int, hi: int, current: int) -> Seq<
    Segment,
> {
    let (segs, pos) = segs_upto(b, ms, lo, hi, current);
    if pos < b.len() && is_char_boundary(b, pos) {
        segs.push(Segment { start: pos as usize, end: b.len() as usize, kind: SegmentKind::Plain })
    } else {
        segs
    }
}

/// Index past the matches from `mi` on that lie in row `r`.
pub open spec fn advance(ms: Seq<SearchMatch>, mi: int, r: int) -> int
    decreases ms.len() - mi,
{
    if 0 <= mi < ms.len() && ms[mi].row == r {
        advance(ms, mi + 1, r)
    } else {
        mi
    }
}

/// The highlighting of rows `0..r` and the match index reached, walking
/// the matches (by row) along the rows.
pub open spec fn walk_rows(plain: Seq<Seq<u8>>, ms: Seq<SearchMatch>, current: int, r: int) -> (
    Seq<(bool, Seq<Segment>)>,
    int,
)
    decreases r,
{
    if r <= 0 {
        (Seq::empty(), 0)
    } else {
        let (acc, mi) = walk_rows(plain, ms, current, r - 1);
        let row = r - 1;
        let next = advance(ms, mi, row);
        if next == mi || row >= plain.len() || plain[row].len() == 0 {
            (acc.push((false, Seq::empty())), next)
        } else {
            (acc.push((true, row_segments(plain[row], ms, mi, next, current))), next)
        }
    }
}

/// The highlighting of `n` rendered rows whose texts are `plain`: nothing
/// without a query or matches, else the matches walked along the rows.
pub open spec fn highlights(n: int, plain: Seq<Seq<u8>>, s: OutputSearch) -> Seq<(bool, Seq<Segment>)> {
    if s.query@.len() == 0 || s.matches@.len() == 0 {
        Seq::new(n as nat, |i: int| (false, Seq::<Segment>::empty()))
    } else {
        walk_rows(plain, s.matches@, s.current as int, n).0
    }
}

pub open spec fn highlight_view(h: RowHighlight) -> (bool, Seq<Segment>) {
    (h.touched, h.segments@)
}

proof fn lemma_advance(ms: Seq<SearchMatch>, mi: int, r: int)
    requires
        0 <= mi,
    ensures
        mi <= advance(ms, mi, r),
        mi <= ms.len() ==> advance(ms, mi, r) <= ms.len(),
    decreases ms.len() - mi,
{
    if 0 <= mi < ms.len() && ms[mi].row == r {
        lemma_advance(ms, mi + 1, r);
    }
}

proof fn lemma_walk_bounds(plain: Seq<Seq<u8>>, ms: Seq<SearchMatch>, current: int, r: int)
    ensures
        0 <= walk_rows(plain, ms, current, r).1 <= ms.len(),
        walk_rows(plain, ms, current, r).0.len() == if r < 0 { 0 } else { r },
    decreases r,
{
    if r > 0 {
        lemma_walk_bounds(plain, ms, current, r - 1);
        lemma_advance(ms, walk_rows(plain, ms, current, r - 1).1, r - 1);
    }
}

proof fn lemma_segs_pos(b: Seq<u8>, ms: Seq<SearchMatch>, lo: int, k: int, current: int)
    ensures
        0 <= segs_upto(b, ms, lo, k, current).1 <= b.len(),
    decreases k - lo,
{
    if k > lo {
        lemma_segs_pos(b, ms, lo, k - 1, current);
    }
}

/// The pieces of one row's text for matches `lo..hi`.
fn segments_of_row(plain: &str, ms: &Vec<SearchMatch>, lo: usize, hi: usize, current: usize) -> (r:
    Vec<Segment>)
    requires
        lo <= hi <= ms@.len(),
    ensures
        r@ == row_segments(encode_utf8(plain@), ms@, lo as int, hi as int, current as int),
{
    let ghost b = encode_utf8(plain@);
    let len = byte_count(plain);
    let mut segs: Vec<Segment> = Vec::new();
    let mut pos: usize = 0;
    let mut k = lo;
    while k < hi
        invariant
            lo <= k <= hi <= ms@.len(),
            b == encode_utf8(plain@),
            len == b.len(),
            (segs@, pos as int) == segs_upto(b, ms@, lo as int, k as int, current as int),
        decreases hi - k,
    {
        proof {
            lemma_segs_pos(b, ms@, lo as int, k as int, current as int);
        }
        let m = ms[k];
        let bs = if m.byte_start < len { m.byte_start } else { len };
        let be = if m.byte_end < len { m.byte_end } else { len };
        if plain.is_char_boundary(bs) && plain.is_char_boundary(be) {
            let kind = if k == current { SegmentKind::Current } else { SegmentKind::Match };
            if bs > pos && plain.is_char_boundary(pos) {
                segs.push(Segment { start: pos, end: bs, kind: SegmentKind::Plain });
            }
            let st = if bs > pos { bs } else { pos };
            if st < be && plain.is_char_boundary(st) {
                segs.push(Segment { start: st, end: be, kind });
            }
            pos = be;
        }
        k += 1;
    }
    proof {
        lemma_segs_pos(b, ms@, lo as int, hi as int, current as int);
    }
    if pos < len && plain.is_char_boundary(pos) {
        segs.push(Segment { start: pos, end: len, kind: SegmentKind::Plain });
    }
    segs
}

/// Highlighting of `n` rendered rows whose plain texts are `plain_lines`:
/// for each row with matches and text, the pieces to redraw it from.
pub fn search_highlights(n: usize, plain_lines: &[String], search: &OutputSearch) -> (r: Vec<
    RowHighlight,
>)
    ensures
        r@.map_values(|h: RowHighlight| highlight_view(h)) == highlights(
            n as int,
            plain_lines@.map_values(|p: String| encode_utf8(p@)),
            *search,
        ),
{
    let ghost plain = plain_lines@.map_values(|p: String| encode_utf8(p@));
    let mut out: Vec<RowHighlight> = Vec::new();
    if !search.has_query() || search.matches.len() == 0 {
        let mut i: usize = 0;
        while i < n
            invariant
                i <= n,
                out@.map_values(|h: RowHighlight| highlight_view(h)) == Seq::new(
                    i as nat,
                    |q: int| (false, Seq::<Segment>::empty()),
                ),
            decreases n - i,
        {
            let ghost before = out@;
            let h = RowHighlight { touched: false, segments: Vec::new() };
            assert(h.segments@ =~= Seq::<Segment>::empty());
            out.push(h);
            proof {
                assert(out@.map_values(|h: RowHighlight| highlight_view(h)) =~= before.map_values(
                    |h: RowHighlight| highlight_view(h),
                ).push((false, Seq::<Segment>::empty())));
                assert(out@.map_values(|h: RowHighlight| highlight_view(h)) =~= Seq::new(
                    (i + 1) as nat,
                    |q: int| (false, Seq::<Segment>::empty()),
                ));
            }
            i += 1;
        }
        return out;
    }
    let ms = &search.matches;
    let current = search.current;
    let mut mi: usize = 0;
    let mut row: usize = 0;
    while row < n
        invariant
            row <= n,
            ms@ == search.matches@,
            current == search.current,
            plain == plain_lines@.map_values(|p: String| encode_utf8(p@)),
            (out@.map_values(|h: RowHighlight| highlight_view(h)), mi as int) == walk_rows(
                plain,
                ms@,
                current as int,
                row as int,
            ),
        decreases n - row,
    {
        proof {
            lemma_walk_bounds(plain, ms@, current as int, row as int);
        }
        let row_start = mi;
        let ghost rest = advance(ms@, mi as int, row as int);
        while mi < ms.len() && ms[mi].row == row
            invariant
                row_start <= mi <= ms@.len(),
                advance(ms@, row_start as int, row as int) == advance(ms@, mi as int, row as int),
            decreases ms@.len() - mi,
        {
            mi += 1;
        }
        let ghost before = out@;
        let ghost prev = walk_rows(plain, ms@, current as int, row as int);
        assert(prev.1 == row_start as int);
        assert(mi as int == advance(ms@, row_start as int, row as int));
        let ghost entry: (bool, Seq<Segment>);
        if row_start == mi || row >= plain_lines.len() || byte_count(plain_lines[row].as_str()) == 0 {
            let h = RowHighlight { touched: false, segments: Vec::new() };
            assert(h.segments@ =~= Seq::<Segment>::empty());
            proof {
                entry = (false, Seq::<Segment>::empty());
            }
            out.push(h);
        } else {
            let segs = segments_of_row(plain_lines[row].as_str(), ms, row_start, mi, current);
            proof {
                entry = (true, segs@);
                assert(plain[row as int] == encode_utf8(plain_lines@[row as int]@));
            }
            out.push(RowHighlight { touched: true, segments: segs });
        }
        proof {
            assert(out@.map_values(|h: RowHighlight| highlight_view(h)) =~= before.map_values(
                |h: RowHighlight| highlight_view(h),
            ).push(entry));
            assert(walk_rows(plain, ms@, current as int, row + 1) == (prev.0.push(entry), mi as int));
        }
        row += 1;
    }
    out
}
} // verus!
