//! Heading lines: the level marker, a TODO keyword, a priority cookie, trailing
//! tags and the title.
use vstd::prelude::*;
use crate::text::{chars_of, string_of, string_of_range, trim_start, trim_end, trim, lead_ws,
    trail_ws, skip_ws_forward, skip_ws_backward, occurs_at_exec};
use crate::tags::{split_colon, nonempty_only, parse_tags};

verus! {

/// A heading line taken apart.
#[derive(Debug, Clone, PartialEq, Eq)]
pub struct ParsedHeading {
    /// Heading level (1+).
    pub level: usize,
    /// TODO keyword if present (e.g. "TODO", "DONE").
    pub todo: Option<String>,
    /// Priority cookie character (e.g. 'A').
    pub priority: Option<char>,
    /// Tags from the trailing `:tag1:tag2:` block.
    pub tags: Vec<String>,
    /// The title, without markers, keyword, priority and tags.
    pub title: String,
}

/// The mathematical content of a parsed heading.
pub struct HeadingView {
    pub level: int,
    pub todo: Option<Seq<char>>,
    pub priority: Option<char>,
    pub tags: Seq<Seq<char>>,
    pub title: Seq<char>,
}

impl View for ParsedHeading {
    type V = HeadingView;

    open spec fn view(&self) -> HeadingView {
        HeadingView {
            level: self.level as int,
            todo: self.todo.deep_view(),
            priority: self.priority,
            tags: self.tags.deep_view(),
            title: self.title@,
        }
    }
}

/// The view of an optional parse result.
pub open spec fn parsed_view(o: Option<ParsedHeading>) -> Option<HeadingView> {
    match o {
        Some(h) => Some(h@),
        None => None,
    }
}

/// Which built-in heading syntax a document uses.
#[derive(Debug, Clone, Copy, PartialEq, Eq)]
pub enum HeadingSyntax {
    /// Org-mode: `* `, `** `, ...
    Org,
    /// Markdown: `# `, `## `, ...
    Markdown,
}

/// The character that marks heading levels in a syntax.
pub open spec fn marker_of(syntax: HeadingSyntax) -> char {
    match syntax {
        HeadingSyntax::Org => '*',
        HeadingSyntax::Markdown => '#',
    }
}

/// Heading detection; implement it to plug in another syntax.
pub trait HeadingParser {
    /// What the parser makes of a line: `None` when it is no heading.
    spec fn parses(&self, line: Seq<char>) -> Option<HeadingView>;

    /// Parse `line` as a heading, or `None` when it is not one.
    fn parse_line(&self, line: &str) -> (r: Option<ParsedHeading>)
        ensures
            parsed_view(r) == self.parses(line@),
    ;
}

/// Org-mode headings: one or more `*` followed by a space.
#[derive(Debug, Clone, Copy)]
pub struct OrgParser;

/// Markdown headings: one or more `#` followed by a space.
#[derive(Debug, Clone, Copy)]
pub struct MarkdownParser;

impl HeadingParser for OrgParser {
    open spec fn parses(&self, line: Seq<char>) -> Option<HeadingView> {
        parse_marked(line, '*')
    }

    fn parse_line(&self, line: &str) -> (r: Option<ParsedHeading>) {
        parse_marked_line(line, '*')
    }
}

impl HeadingParser for MarkdownParser {
    open spec fn parses(&self, line: Seq<char>) -> Option<HeadingView> {
        parse_marked(line, '#')
    }

    fn parse_line(&self, line: &str) -> (r: Option<ParsedHeading>) {
        parse_marked_line(line, '#')
    }
}

// ── Specification ───────────────────────────────────────────────────────────

/// The TODO keywords recognised in heading text, in the order they are tried.
pub open spec fn todo_keywords() -> Seq<Seq<char>> {
    seq![
        seq!['T', 'O', 'D', 'O'],
        seq!['I', 'N', '_', 'P', 'R', 'O', 'G', 'R', 'E', 'S', 'S'],
        seq!['P', 'R', 'O', 'G'],
        seq!['D', 'O', 'N', 'E'],
        seq!['C', 'A', 'N', 'C', 'E', 'L', 'L', 'E', 'D'],
        seq!['C', 'A', 'N', 'C', 'E', 'L', 'E', 'D'],
        seq!['W', 'A', 'I', 'T'],
        seq!['H', 'O', 'L', 'D'],
    ]
}

/// Number of leading `m` characters of `s`.
pub open spec fn leading_run(s: Seq<char>, m: char) -> int
    decreases s.len(),
{
    if s.len() > 0 && s[0] == m { 1 + leading_run(s.drop_first(), m) } else { 0 }
}

/// `t` opens with the keyword `kw`, followed by a space or nothing.
pub open spec fn keyword_at(t: Seq<char>, kw: Seq<char>) -> bool {
    kw.len() <= t.len() && t.take(kw.len() as int) == kw && (t.len() == kw.len() || t[kw.len() as int] == ' ')
}

/// Index of the first keyword, from the `k`-th on, that `t` opens with.
pub open spec fn first_keyword(t: Seq<char>, k: int) -> Option<int>
    decreases todo_keywords().len() - k,
{
    if k < 0 || k >= todo_keywords().len() {
        None
    } else if keyword_at(t, todo_keywords()[k]) {
        Some(k)
    } else {
        first_keyword(t, k + 1)
    }
}

/// The keyword that opens heading text `c`, by its index.
pub open spec fn todo_index(c: Seq<char>) -> Option<int> {
    first_keyword(trim_start(c), 0)
}

/// Heading text after its keyword.
pub open spec fn after_todo(c: Seq<char>) -> Seq<char> {
    match todo_index(c) {
        Some(k) => trim_start(trim_start(c).skip(todo_keywords()[k].len() as int)),
        None => c,
    }
}

/// `t` opens with a priority cookie `[#X]`, `X` an ASCII capital.
pub open spec fn priority_cookie(t: Seq<char>) -> bool {
    t.len() >= 4 && t[0] == '[' && t[1] == '#' && 'A' <= t[2] && t[2] <= 'Z' && t[3] == ']'
}

/// The priority of text `r`.
pub open spec fn priority_of(r: Seq<char>) -> Option<char> {
    if priority_cookie(trim_start(r)) { Some(trim_start(r)[2]) } else { None }
}

/// Text `r` after its priority cookie.
pub open spec fn after_priority(r: Seq<char>) -> Seq<char> {
    if priority_cookie(trim_start(r)) { trim_start(trim_start(r).skip(4)) } else { r }
}

/// Scanning `t` down from index `j`: where a tag block starts (a `:` at the
/// start or after a space), `None` once a space comes first.
pub open spec fn tag_block_start(t: Seq<char>, j: int) -> Option<int>
    decreases j + 1,
{
    if j < 0 || j >= t.len() {
        None
    } else if t[j] == ':' && (j == 0 || t[j - 1] == ' ') {
        Some(j)
    } else if t[j] == ' ' {
        None
    } else {
        tag_block_start(t, j - 1)
    }
}

/// A character allowed in a heading tag.
pub open spec fn heading_tag_char(c: char) -> bool {
    ('a' <= c && c <= 'z') || ('A' <= c && c <= 'Z') || ('0' <= c && c <= '9') || c == '_' || c == '-'
        || c == '@'
}

/// A valid heading tag: non-empty, only tag characters.
pub open spec fn heading_tag(s: Seq<char>) -> bool {
    s.len() > 0 && forall|i: int| 0 <= i < s.len() ==> heading_tag_char(#[trigger] s[i])
}

/// Every tag of the list is valid.
pub open spec fn all_heading_tags(ts: Seq<Seq<char>>) -> bool {
    forall|i: int| 0 <= i < ts.len() ==> heading_tag(#[trigger] ts[i])
}

/// Where the tag block of text `r` starts within `trim_end(r)`, if it has one.
pub open spec fn tag_split(r: Seq<char>) -> Option<int> {
    let t = trim_end(r);
    if t.len() > 0 && t.last() == ':' {
        match tag_block_start(t, t.len() - 2) {
            Some(j) => {
                let ts = nonempty_only(split_colon(t.skip(j)));
                if ts.len() > 0 && all_heading_tags(ts) { Some(j) } else { None }
            },
            None => None,
        }
    } else {
        None
    }
}

/// The trailing tags of text `r`.
pub open spec fn tags_of(r: Seq<char>) -> Seq<Seq<char>> {
    match tag_split(r) {
        Some(j) => nonempty_only(split_colon(trim_end(r).skip(j))),
        None => seq![],
    }
}

/// Text `r` without its trailing tags.
pub open spec fn after_tags(r: Seq<char>) -> Seq<char> {
    match tag_split(r) {
        Some(j) => trim_end(trim_end(r).take(j)),
        None => r,
    }
}

/// Heading text `c` (after the marker and its space) taken apart.
pub open spec fn heading_content(level: int, c: Seq<char>) -> HeadingView {
    let r1 = after_todo(c);
    let r2 = after_priority(r1);
    HeadingView {
        level,
        todo: match todo_index(c) {
            Some(k) => Some(todo_keywords()[k]),
            None => None,
        },
        priority: priority_of(r1),
        tags: tags_of(r2),
        title: trim(after_tags(r2)),
    }
}

/// A line parsed as a heading whose level marker is `m`.
pub open spec fn parse_marked(line: Seq<char>, m: char) -> Option<HeadingView> {
    let n = leading_run(line, m);
    if n == 0 || n >= line.len() || line[n] != ' ' {
        None
    } else {
        Some(heading_content(n, line.skip(n + 1)))
    }
}

// ── Lemmas ──────────────────────────────────────────────────────────────────

pub proof fn lemma_leading_run(s: Seq<char>, m: char)
    ensures
        0 <= leading_run(s, m) <= s.len(),
        leading_run(s, m) < s.len() ==> s[leading_run(s, m)] != m,
        forall|i: int| 0 <= i < leading_run(s, m) ==> #[trigger] s[i] == m,
    decreases s.len(),
{
    if s.len() > 0 && s[0] == m {
        lemma_leading_run(s.drop_first(), m);
        assert forall|i: int| 0 <= i < leading_run(s, m) implies #[trigger] s[i] == m by {
            if i > 0 {
                assert(s[i] == s.drop_first()[i - 1]);
            }
        }
    }
}

proof fn lemma_first_keyword_from(t: Seq<char>, k: int)
    requires
        0 <= k <= todo_keywords().len(),
        forall|j: int| 0 <= j < k ==> !keyword_at(t, #[trigger] todo_keywords()[j]),
    ensures
        first_keyword(t, 0) == first_keyword(t, k),
    decreases k,
{
    if k > 0 {
        lemma_first_keyword_from(t, k - 1);
        assert(!keyword_at(t, todo_keywords()[k - 1]));
    }
}

// ── Implementation ──────────────────────────────────────────────────────────

/// The TODO keywords recognised in heading text.
pub fn default_todo_keywords() -> (r: Vec<String>)
    ensures
        r.deep_view() == todo_keywords(),
{
    let mut r: Vec<String> = Vec::new();
    let mut k: usize = 0;
    while k < 8
        invariant
            k <= 8,
            todo_keywords().len() == 8,
            r.deep_view() == todo_keywords().take(k as int),
        decreases 8 - k,
    {
        let kw = keyword_chars(k);
        let s = string_of(kw.as_slice());
        let ghost before = r.deep_view();
        r.push(s);
        assert(r.deep_view() =~= before.push(todo_keywords()[k as int]));
        assert(todo_keywords().take(k as int).push(todo_keywords()[k as int]) =~= todo_keywords().take(k + 1));
        k += 1;
    }
    assert(todo_keywords().take(8) =~= todo_keywords());
    r
}

/// The characters of the `k`-th TODO keyword.
fn keyword_chars(k: usize) -> (r: Vec<char>)
    requires
        k < 8,
    ensures
        r@ == todo_keywords()[k as int],
{
    let r = match k {
        0 => vec!['T', 'O', 'D', 'O'],
        1 => vec!['I', 'N', '_', 'P', 'R', 'O', 'G', 'R', 'E', 'S', 'S'],
        2 => vec!['P', 'R', 'O', 'G'],
        3 => vec!['D', 'O', 'N', 'E'],
        4 => vec!['C', 'A', 'N', 'C', 'E', 'L', 'L', 'E', 'D'],
        5 => vec!['C', 'A', 'N', 'C', 'E', 'L', 'E', 'D'],
        6 => vec!['W', 'A', 'I', 'T'],
        _ => vec!['H', 'O', 'L', 'D'],
    };
    assert(r@ =~= todo_keywords()[k as int]);
    r
}

/// Parse a line whose heading marker is `m`.
fn parse_marked_line(line: &str, m: char) -> (r: Option<ParsedHeading>)
    ensures
        parsed_view(r) == parse_marked(line@, m),
{
    let v = chars_of(line);
    proof { lemma_leading_run(v@, m); }
    let mut n: usize = 0;
    while n < v.len() && v[n] == m
        invariant
            v@ == line@,
            n <= leading_run(v@, m),
            0 <= leading_run(v@, m) <= v@.len(),
            leading_run(v@, m) < v@.len() ==> v@[leading_run(v@, m)] != m,
        decreases v@.len() - n,
    {
        n += 1;
    }
    if n == 0 || n >= v.len() || v[n] != ' ' {
        return None;
    }
    let h = parse_content(n, &v, n + 1);
    assert(v@.subrange(n + 1, v@.len() as int) =~= v@.skip(n + 1));
    Some(h)
}

/// Heading text `v[a0..]` taken apart, for a heading of the given level.
fn parse_content(level: usize, v: &Vec<char>, a0: usize) -> (r: ParsedHeading)
    requires
        a0 <= v@.len(),
    ensures
        r@ == heading_content(level as int, v@.subrange(a0 as int, v@.len() as int)),
{
    let ghost c = v@.subrange(a0 as int, v@.len() as int);
    let (todo, a1) = todo_step(v, a0);
    let todo_s = match todo {
        Some(k) => Some(string_of(keyword_chars(k).as_slice())),
        None => None,
    };
    let (priority, a2) = priority_step(v, a1);
    let (tags, b) = tags_step(v, a2);
    let f = skip_ws_forward(v.as_slice(), a2, b);
    let g = skip_ws_backward(v.as_slice(), f, b);
    proof {
        let s = v@.subrange(a2 as int, b as int);
        assert(trim_start(s) =~= v@.subrange(f as int, b as int));
        assert(trim_end(v@.subrange(f as int, b as int)) =~= v@.subrange(f as int, g as int));
    }
    let title = string_of_range(v.as_slice(), f, g);
    ParsedHeading { level, todo: todo_s, priority, tags, title }
}

/// The keyword step: the keyword found in `v[a..]` and where the rest starts.
fn todo_step(v: &Vec<char>, a: usize) -> (r: (Option<usize>, usize))
    requires
        a <= v@.len(),
    ensures
        match r.0 {
            Some(k) => k < 8 && todo_index(v@.subrange(a as int, v@.len() as int)) == Some(k as int),
            None => todo_index(v@.subrange(a as int, v@.len() as int)) is None,
        },
        a <= r.1 <= v@.len(),
        v@.subrange(r.1 as int, v@.len() as int) == after_todo(v@.subrange(a as int, v@.len() as int)),
{
    let ghost c = v@.subrange(a as int, v@.len() as int);
    let len = v.len();
    let t0 = skip_ws_forward(v.as_slice(), a, len);
    let ghost t = v@.subrange(t0 as int, len as int);
    assert(trim_start(c) =~= t);
    let mut k: usize = 0;
    while k < 8
        invariant
            a <= t0 <= len == v@.len(),
            t == v@.subrange(t0 as int, len as int),
            trim_start(c) == t,
            c == v@.subrange(a as int, v@.len() as int),
            todo_keywords().len() == 8,
            k <= 8,
            forall|j: int| 0 <= j < k ==> !keyword_at(t, #[trigger] todo_keywords()[j]),
        decreases 8 - k,
    {
        let kw = keyword_chars(k);
        let kl = kw.len();
        if occurs_at_exec(v.as_slice(), kw.as_slice(), t0) && (t0 + kl == len || v[t0 + kl] == ' ') {
            proof {
                assert(t.take(kl as int) =~= kw@);
                assert(keyword_at(t, todo_keywords()[k as int]));
                lemma_first_keyword_from(t, k as int);
            }
            let rest = skip_ws_forward(v.as_slice(), t0 + kl, len);
            proof {
                assert(t.skip(kl as int) =~= v@.subrange(t0 + kl, len as int));
                assert(trim_start(t.skip(kl as int)) =~= v@.subrange(rest as int, len as int));
            }
            return (Some(k), rest);
        }
        proof {
            if keyword_at(t, todo_keywords()[k as int]) {
                assert(v@.subrange(t0 as int, t0 + kl) =~= t.take(kl as int));
            }
        }
        k += 1;
    }
    proof {
        lemma_first_keyword_from(t, 8);
    }
    (None, a)
}

/// The priority step: the cookie of `v[a..]` and where the rest starts.
fn priority_step(v: &Vec<char>, a: usize) -> (r: (Option<char>, usize))
    requires
        a <= v@.len(),
    ensures
        r.0 == priority_of(v@.subrange(a as int, v@.len() as int)),
        a <= r.1 <= v@.len(),
        v@.subrange(r.1 as int, v@.len() as int) == after_priority(v@.subrange(a as int, v@.len() as int)),
{
    let ghost c = v@.subrange(a as int, v@.len() as int);
    let len = v.len();
    let t0 = skip_ws_forward(v.as_slice(), a, len);
    let ghost t = v@.subrange(t0 as int, len as int);
    assert(trim_start(c) =~= t);
    if len - t0 >= 4 && v[t0] == '[' && v[t0 + 1] == '#' && 'A' <= v[t0 + 2] && v[t0 + 2] <= 'Z'
        && v[t0 + 3] == ']' {
        let rest = skip_ws_forward(v.as_slice(), t0 + 4, len);
        proof {
            assert(t.skip(4) =~= v@.subrange(t0 + 4, len as int));
            assert(trim_start(t.skip(4)) =~= v@.subrange(rest as int, len as int));
        }
        (Some(v[t0 + 2]), rest)
    } else {
        (None, a)
    }
}

/// Whether a character may stand in a heading tag.
fn is_heading_tag_char(c: char) -> (r: bool)
    ensures
        r == heading_tag_char(c),
{
    ('a' <= c && c <= 'z') || ('A' <= c && c <= 'Z') || ('0' <= c && c <= '9') || c == '_' || c == '-'
        || c == '@'
}

/// Whether every string of the list is a valid heading tag.
fn all_valid_heading_tags(ts: &Vec<String>) -> (r: bool)
    ensures
        r == all_heading_tags(ts.deep_view()),
{
    let mut i: usize = 0;
    while i < ts.len()
        invariant
            i <= ts@.len(),
            forall|j: int| 0 <= j < i ==> heading_tag(#[trigger] ts.deep_view()[j]),
        decreases ts@.len() - i,
    {
        let cs = chars_of(ts[i].as_str());
        assert(cs@ == ts.deep_view()[i as int]);
        if cs.len() == 0 {
            return false;
        }
        let mut k: usize = 0;
        while k < cs.len()
            invariant
                k <= cs@.len(),
                i < ts@.len(),
                cs@ == ts.deep_view()[i as int],
                forall|j: int| 0 <= j < k ==> heading_tag_char(#[trigger] cs@[j]),
            decreases cs@.len() - k,
        {
            if !is_heading_tag_char(cs[k]) {
                assert(!heading_tag(ts.deep_view()[i as int]));
                return false;
            }
            k += 1;
        }
        i += 1;
    }
    true
}

/// Where the tag block of `v[a..e]` starts, scanning down from its last
/// character but one.
fn scan_tag_block(v: &Vec<char>, a: usize, e: usize) -> (r: Option<usize>)
    requires
        a < e <= v@.len(),
    ensures
        match r {
            Some(i) => a <= i < e && tag_block_start(v@.subrange(a as int, e as int), e - a - 2) == Some(
                i - a),
            None => tag_block_start(v@.subrange(a as int, e as int), e - a - 2) is None,
        },
{
    let ghost t = v@.subrange(a as int, e as int);
    let mut i: usize = e - 1;
    loop
        invariant
            a <= i < e <= v@.len(),
            t == v@.subrange(a as int, e as int),
            tag_block_start(t, e - a - 2) == tag_block_start(t, i - a - 1),
        decreases i,
    {
        if i == a {
            return None;
        }
        i -= 1;
        assert(t[i - a] == v@[i as int]);
        if i > a {
            assert(t[i - a - 1] == v@[i - 1]);
        }
        if v[i] == ':' && (i == a || v[i - 1] == ' ') {
            return Some(i);
        }
        if v[i] == ' ' {
            return None;
        }
    }
}

/// The tag step: the trailing tags of `v[a..]` and where the remaining text ends.
fn tags_step(v: &Vec<char>, a: usize) -> (r: (Vec<String>, usize))
    requires
        a <= v@.len(),
    ensures
        r.0.deep_view() == tags_of(v@.subrange(a as int, v@.len() as int)),
        a <= r.1 <= v@.len(),
        v@.subrange(a as int, r.1 as int) == after_tags(v@.subrange(a as int, v@.len() as int)),
{
    let ghost c = v@.subrange(a as int, v@.len() as int);
    let len = v.len();
    let e = skip_ws_backward(v.as_slice(), a, len);
    let ghost t = v@.subrange(a as int, e as int);
    assert(trim_end(c) =~= t);
    if e > a && v[e - 1] == ':' {
        assert(t.last() == v@[e - 1]);
        match scan_tag_block(v, a, e) {
            Some(j) => {
                let block = string_of_range(v.as_slice(), j, e);
                assert(block@ =~= t.skip(j - a));
                let tags = parse_tags(block.as_str());
                if tags.len() > 0 && all_valid_heading_tags(&tags) {
                    let b = skip_ws_backward(v.as_slice(), a, j);
                    proof {
                        assert(t.take(j - a) =~= v@.subrange(a as int, j as int));
                        assert(trim_end(v@.subrange(a as int, j as int)) =~= v@.subrange(a as int, b as int));
                    }
                    return (tags, b);
                }
                (Vec::new(), len)
            },
            None => (Vec::new(), len),
        }
    } else {
        (Vec::new(), len)
    }
}

} // verus!
