//! Streaming output buffer with head/tail truncation, scroll state and a
//! manager of buffers per tool call.
use vstd::prelude::*;
use crate::text::{blen, byte_len, to_owned_string, str_eq, lines_of, text_lines};

verus! {

/// Configuration of a streaming output buffer.
#[derive(Debug, Clone, Copy)]
pub struct StreamingConfig {
    pub max_lines: usize,
    pub head_lines: usize,
    pub tail_lines: usize,
    pub visible_lines: usize,
}

impl Default for StreamingConfig {
    fn default() -> (c: Self)
        ensures
            c.max_lines == 2000 && c.head_lines == 200 && c.tail_lines == 200 && c.visible_lines == 16,
    {
        StreamingConfig { max_lines: 2000, head_lines: 200, tail_lines: 200, visible_lines: 16 }
    }
}

/// One logical display line: text, or the marker for omitted lines.
#[derive(Debug, Clone)]
pub enum DisplayLine {
    Text(String),
    Omitted(usize),
}

/// Bytes counted for a sequence of lines: each line's UTF-8 length plus a newline.
pub open spec fn bytes_sum(lines: Seq<Seq<char>>) -> int
    decreases lines.len(),
{
    if lines.len() == 0 { 0 } else { bytes_sum(lines.drop_last()) + blen(lines.last()) + 1 }
}

/// The mathematical content of a `StreamingOutput`.
pub struct StreamingView {
    /// Every line received, in order.
    pub seen: Seq<Seq<char>>,
    pub head: Seq<Seq<char>>,
    pub tail: Seq<Seq<char>>,
    pub total_lines: int,
    pub total_bytes: int,
    pub omitted: int,
    pub scroll: int,
    pub auto_follow: bool,
    pub focused: bool,
    pub config: StreamingConfig,
}

/// A scrollable output buffer for a single tool execution.
pub struct StreamingOutput {
    head: Vec<String>,
    tail: Vec<String>,
    total_lines: usize,
    total_bytes: usize,
    omitted: usize,
    scroll_offset: usize,
    auto_follow: bool,
    pub focused: bool,
    config: StreamingConfig,
    seen: Ghost<Seq<Seq<char>>>,
}

pub open spec fn min_int(a: int, b: int) -> int {
    if a < b { a } else { b }
}

/// The truncation shape: the head holds the first lines received (up to
/// `head_lines`), the tail the most recent ones (up to `tail_lines`), and the
/// counters account for every line and byte received.
pub open spec fn shape_ok(v: StreamingView) -> bool {
    let n = v.seen.len() as int;
    &&& v.total_lines == n
    &&& v.head.len() == min_int(n, v.config.head_lines as int)
    &&& v.head == v.seen.take(v.head.len() as int)
    &&& v.tail.len() == min_int(n - v.head.len(), v.config.tail_lines as int)
    &&& v.tail == v.seen.subrange(n - v.tail.len(), n)
    &&& v.omitted == n - v.head.len() - v.tail.len()
    &&& v.total_bytes == bytes_sum(v.seen)
}

/// Number of display lines: head, the omission marker when lines were dropped, tail.
pub open spec fn display_count(v: StreamingView) -> int {
    v.head.len() + v.tail.len() + if v.omitted > 0 { 1int } else { 0int }
}

/// Display line `i`.
pub open spec fn display_at(v: StreamingView, i: int) -> (bool, Seq<char>, int) {
    if i < v.head.len() {
        (true, v.head[i], 0)
    } else if v.omitted > 0 && i == v.head.len() {
        (false, seq![], v.omitted)
    } else {
        let ti = if v.omitted > 0 { i - v.head.len() - 1 } else { i - v.head.len() };
        if ti < v.tail.len() { (true, v.tail[ti], 0) } else { (true, seq![], 0) }
    }
}

/// A display line as `(is_text, text, omitted_count)`.
pub open spec fn display_line_view(d: DisplayLine) -> (bool, Seq<char>, int) {
    match d {
        DisplayLine::Text(s) => (true, s@, 0),
        DisplayLine::Omitted(n) => (false, seq![], n as int),
    }
}

/// `push_line` stays within `usize` counters.
pub open spec fn push_ok(v: StreamingView, line: Seq<char>) -> bool {
    &&& v.total_lines < usize::MAX
    &&& v.total_bytes + blen(line) + 1 <= usize::MAX
}


/// Two buffers with the truncation shape that received the same lines under
/// the same configuration keep the same head, tail and counters.
pub proof fn lemma_shape_determined(a: StreamingView, b: StreamingView)
    requires
        shape_ok(a),
        shape_ok(b),
        a.seen == b.seen,
        a.config == b.config,
    ensures
        a.head == b.head,
        a.tail == b.tail,
        a.total_lines == b.total_lines,
        a.total_bytes == b.total_bytes,
        a.omitted == b.omitted,
        display_count(a) == display_count(b),
{
}

proof fn lemma_steps_seen(start: StreamingView, steps: Seq<StreamingView>, ls: Seq<Seq<char>>, i: int)
    requires
        0 <= i <= ls.len(),
        steps.len() == ls.len() + 1,
        steps[0] == start,
        shape_ok(start),
        forall|j: int| 0 <= j < ls.len() ==> shape_ok(#[trigger] steps[j + 1])
            && steps[j + 1].seen == steps[j].seen.push(ls[j])
            && steps[j + 1].config == steps[j].config,
    ensures
        steps[i].seen == start.seen + ls.take(i),
        steps[i].config == start.config,
        shape_ok(steps[i]),
    decreases i,
{
    if i == 0 {
        assert(start.seen + ls.take(0) =~= start.seen);
    } else {
        lemma_steps_seen(start, steps, ls, i - 1);
        assert(shape_ok(steps[(i - 1) + 1]));
        assert(start.seen + ls.take(i) =~= (start.seen + ls.take(i - 1)).push(ls[i - 1]));
    }
}

/// Pushing a text gives the buffer that pushing its lines one by one gives:
/// `steps` are the buffers after each `push_line` of the text's lines, from
/// `start`; `after_text` is the buffer after `push_text` of the text.
pub proof fn lemma_text_push_is_line_pushes(
    start: StreamingView,
    steps: Seq<StreamingView>,
    after_text: StreamingView,
    text: Seq<char>,
)
    requires
        shape_ok(start),
        steps.len() == text_lines(text).len() + 1,
        steps[0] == start,
        forall|i: int| 0 <= i < text_lines(text).len() ==> shape_ok(#[trigger] steps[i + 1])
            && steps[i + 1].seen == steps[i].seen.push(text_lines(text)[i])
            && steps[i + 1].config == steps[i].config,
        shape_ok(after_text),
        after_text.seen == start.seen + text_lines(text),
        after_text.config == start.config,
    ensures
        after_text.head == steps.last().head,
        after_text.tail == steps.last().tail,
        after_text.total_lines == steps.last().total_lines,
        after_text.total_bytes == steps.last().total_bytes,
        after_text.omitted == steps.last().omitted,
{
    let ls = text_lines(text);
    lemma_steps_seen(start, steps, ls, ls.len() as int);
    assert(ls.take(ls.len() as int) =~= ls);
    lemma_shape_determined(after_text, steps.last());
}

impl StreamingOutput {
    pub closed spec fn model(&self) -> StreamingView {
        StreamingView {
            seen: self.seen@,
            head: self.head.deep_view(),
            tail: self.tail.deep_view(),
            total_lines: self.total_lines as int,
            total_bytes: self.total_bytes as int,
            omitted: self.omitted as int,
            scroll: self.scroll_offset as int,
            auto_follow: self.auto_follow,
            focused: self.focused,
            config: self.config,
        }
    }

    /// A buffer with the default configuration.
    pub fn new() -> (r: Self)
        ensures
            shape_ok(r@),
            r@.seen.len() == 0,
            r@.scroll == 0,
            r@.auto_follow,
            !r@.focused,
            r@.config.head_lines == 200 && r@.config.tail_lines == 200,
            r@.config.max_lines == 2000 && r@.config.visible_lines == 16,
    {
        Self::with_config(StreamingConfig::default())
    }

    /// A buffer with the given configuration.
    pub fn with_config(config: StreamingConfig) -> (r: Self)
        ensures
            shape_ok(r@),
            r@ == StreamingOutput::fresh_view(config),
    {
        let r = StreamingOutput {
            head: Vec::new(),
            tail: Vec::new(),
            total_lines: 0,
            total_bytes: 0,
            omitted: 0,
            scroll_offset: 0,
            auto_follow: true,
            focused: false,
            config,
            seen: Ghost(Seq::empty()),
        };
        assert(r.head.deep_view() =~= Seq::<Seq<char>>::empty());
        assert(r.tail.deep_view() =~= Seq::<Seq<char>>::empty());
        assert(r@.seen.take(0) =~= Seq::<Seq<char>>::empty());
        assert(r@.seen.subrange(0, 0) =~= Seq::<Seq<char>>::empty());
        assert(r@ =~= StreamingOutput::fresh_view(config));
        r
    }

    /// Append a line of output.
    pub fn push_line(&mut self, line: &str)
        requires
            shape_ok(old(self)@),
            push_ok(old(self)@, line@),
        ensures
            shape_ok(final(self)@),
            final(self)@.seen == old(self)@.seen.push(line@),
            final(self)@.config == old(self)@.config,
            final(self)@.focused == old(self)@.focused,
            final(self)@.auto_follow == old(self)@.auto_follow,
            final(self)@.scroll == if old(self)@.auto_follow { usize::MAX as int } else { old(self)@.scroll },
    {
        let ghost v = self@;
        let ghost n = v.seen.len() as int;
        let ghost s1 = v.seen.push(line@);
        self.total_lines = self.total_lines + 1;
        self.total_bytes = self.total_bytes + byte_len(line) + 1;
        if self.head.len() < self.config.head_lines {
            self.head.push(to_owned_string(line));
            proof {
                assert(v.head.len() == n);
                assert(v.head =~= v.seen);
                assert(self.head.deep_view() =~= v.head.push(line@));
                assert(s1.drop_last() =~= v.seen);
                assert(self.head.deep_view() =~= s1.take(self.head.len() as int));
                assert(v.tail.len() == 0);
                assert(self.tail.deep_view() =~= s1.subrange(n + 1, n + 1));
            }
        } else if self.config.tail_lines == 0 {
            // No tail is kept: the line only counts as omitted.
            self.omitted = self.omitted + 1;
            proof {
                assert(s1.drop_last() =~= v.seen);
                assert(self.head.deep_view() =~= s1.take(self.head.len() as int));
                assert(self.tail.deep_view() =~= s1.subrange(n + 1, n + 1));
            }
        } else {
            let ghost removed = self.tail.len() >= self.config.tail_lines;
            if self.tail.len() >= self.config.tail_lines {
                self.tail.remove(0);
                self.omitted = self.omitted + 1;
            }
            assert(self.tail.deep_view() =~= if removed { v.tail.subrange(1, v.tail.len() as int) } else { v.tail });
            self.tail.push(to_owned_string(line));
            proof {
                let t = v.tail.len() as int;
                assert(self.tail.deep_view() =~= (if removed { v.tail.subrange(1, t) } else { v.tail }).push(line@));
                assert(v.tail =~= v.seen.subrange(n - t, n));
                assert(s1.drop_last() =~= v.seen);
                assert(self.head.deep_view() =~= s1.take(self.head.len() as int));
                assert(self.tail.deep_view() =~= s1.subrange(n + 1 - self.tail.len(), n + 1));
            }
        }
        self.seen = Ghost(self.seen@.push(line@));
        if self.auto_follow {
            self.scroll_to_bottom();
        }
    }

    /// Append every line of a text (`str::lines`).
    pub fn push_text(&mut self, text: &str)
        requires
            shape_ok(old(self)@),
            old(self)@.total_lines + text_lines(text@).len() <= usize::MAX,
            old(self)@.total_bytes + bytes_sum(text_lines(text@)) <= usize::MAX,
        ensures
            shape_ok(final(self)@),
            final(self)@.seen == old(self)@.seen + text_lines(text@),
            final(self)@.config == old(self)@.config,
            final(self)@.focused == old(self)@.focused,
            final(self)@.auto_follow == old(self)@.auto_follow,
            final(self)@.scroll == if old(self)@.auto_follow && text_lines(text@).len() > 0 { usize::MAX as int } else { old(self)@.scroll },
    {
        let lines = lines_of(text);
        let ghost ls = lines.deep_view();
        let ghost v0 = self@;
        let mut i: usize = 0;
        while i < lines.len()
            invariant
                ls == lines.deep_view(),
                ls == text_lines(text@),
                i <= ls.len(),
                shape_ok(self@),
                self@.seen == v0.seen + ls.take(i as int),
                self@.config == v0.config,
                self@.focused == v0.focused,
                self@.auto_follow == v0.auto_follow,
                self@.scroll == if v0.auto_follow && i > 0 { usize::MAX as int } else { v0.scroll },
                v0.total_lines + ls.len() <= usize::MAX,
                v0.total_bytes + bytes_sum(ls) <= usize::MAX,
                v0.total_lines == v0.seen.len(),
                v0.total_bytes == bytes_sum(v0.seen),
                v0.head.len() == min_int(v0.seen.len() as int, v0.config.head_lines as int),
            decreases ls.len() - i,
        {
            proof {
                lemma_bytes_sum_prefix(ls, i as int);
                assert(ls.take(i + 1) =~= ls.take(i as int).push(ls[i as int]));
                lemma_bytes_sum_concat(v0.seen, ls.take(i as int));
            }
            self.push_line(lines[i].as_str());
            assert(v0.seen + ls.take(i + 1) =~= (v0.seen + ls.take(i as int)).push(ls[i as int]));
            i += 1;
        }
        assert(ls.take(ls.len() as int) =~= ls);
    }

    /// Total number of display lines (head, omission marker, tail).
    pub fn display_line_count(&self) -> (r: usize)
        requires
            shape_ok(self@),
        ensures
            r == display_count(self@),
    {
        let base = self.head.len() + self.tail.len();
        if self.omitted > 0 { base + 1 } else { base }
    }

    /// Rows the output takes when shown inline: its display lines, at most
    /// `visible_lines` of them.
    pub fn height(&self, _width: u16) -> (r: u16)
        requires
            shape_ok(self@),
        ensures
            r == (min_int(display_count(self@), self@.config.visible_lines as int) as u16),
    {
        let d = self.display_line_count();
        let v = self.config.visible_lines;
        let m = if d < v { d } else { v };
        m as u16
    }

    /// Total lines received (including truncated ones).
    pub fn total_lines(&self) -> (r: usize)
        ensures
            r == self@.total_lines,
    {
        self.total_lines
    }

    /// Total bytes received (each line plus its newline).
    pub fn total_bytes(&self) -> (r: usize)
        ensures
            r == self@.total_bytes,
    {
        self.total_bytes
    }

    /// Number of lines dropped between head and tail.
    pub fn omitted(&self) -> (r: usize)
        ensures
            r == self@.omitted,
    {
        self.omitted
    }

    /// Whether auto-follow is on.
    pub fn auto_follow(&self) -> (r: bool)
        ensures
            r == self@.auto_follow,
    {
        self.auto_follow
    }

    /// The scroll offset (may exceed the line count; clamped when rendering).
    pub fn scroll_offset(&self) -> (r: usize)
        ensures
            r == self@.scroll,
    {
        self.scroll_offset
    }

    /// The head lines.
    pub fn head(&self) -> (r: &[String])
        ensures
            r.deep_view() == self@.head,
    {
        self.head.as_slice()
    }

    /// The tail lines.
    pub fn tail(&self) -> (r: &[String])
        ensures
            r.deep_view() == self@.tail,
    {
        self.tail.as_slice()
    }

    /// The configuration.
    pub fn config(&self) -> (r: StreamingConfig)
        ensures
            r == self@.config,
    {
        self.config
    }

    /// Toggle auto-follow; turning it on scrolls to the bottom.
    pub fn toggle_auto_follow(&mut self)
        ensures
            final(self)@ == (StreamingView {
                auto_follow: !old(self)@.auto_follow,
                scroll: if !old(self)@.auto_follow { usize::MAX as int } else { old(self)@.scroll },
                ..old(self)@
            }),
    {
        self.auto_follow = !self.auto_follow;
        if self.auto_follow {
            self.scroll_to_bottom();
        }
    }

    /// Scroll up by `n` lines; turns auto-follow off.
    pub fn scroll_up(&mut self, n: usize)
        ensures
            final(self)@ == (StreamingView {
                auto_follow: false,
                scroll: if old(self)@.scroll > n { old(self)@.scroll - n } else { 0 },
                ..old(self)@
            }),
    {
        self.auto_follow = false;
        self.scroll_offset = if self.scroll_offset > n { self.scroll_offset - n } else { 0 };
    }

    /// Scroll down by `n` lines within a window of `visible_height` lines;
    /// auto-follow is on again exactly when the bottom is reached.
    pub fn scroll_down(&mut self, n: usize, visible_height: usize)
        requires
            shape_ok(old(self)@),
        ensures
            ({
                let dc = display_count(old(self)@);
                let max = if dc > visible_height { dc - visible_height } else { 0 };
                let s = if old(self)@.scroll + n < max { old(self)@.scroll + n } else { max };
                final(self)@ == (StreamingView { auto_follow: s >= max, scroll: s, ..old(self)@ })
            }),
    {
        self.auto_follow = false;
        let dc = self.display_line_count();
        let max = if dc > visible_height { dc - visible_height } else { 0 };
        let s = self.scroll_offset.saturating_add(n);
        self.scroll_offset = if s < max { s } else { max };
        if self.scroll_offset >= max {
            self.auto_follow = true;
        }
    }

    /// The display lines a view of `visible_height` lines shows, as
    /// `[start, end)`; the scroll offset is first clamped so the view ends
    /// at the last line at most, and pinned there while following.
    pub fn visible_range(&mut self, visible_height: usize) -> (r: (usize, usize))
        requires
            shape_ok(old(self)@),
        ensures
            ({
                let dc = display_count(old(self)@);
                let max = if dc > visible_height { dc - visible_height } else { 0 };
                let s = if old(self)@.auto_follow || old(self)@.scroll > max { max } else { old(self)@.scroll };
                &&& final(self)@ == (StreamingView { scroll: s, ..old(self)@ })
                &&& r.0 == s
                &&& r.1 == (if s + visible_height < dc { s + visible_height } else { dc })
            }),
    {
        let dc = self.display_line_count();
        let max_offset = if dc > visible_height { dc - visible_height } else { 0 };
        if self.auto_follow || self.scroll_offset > max_offset {
            self.scroll_offset = max_offset;
        }
        let start = self.scroll_offset;
        let end = if dc - start > visible_height { start + visible_height } else { dc };
        (start, end)
    }

    /// Scroll to the top; turns auto-follow off.
    pub fn scroll_to_top(&mut self)
        ensures
            final(self)@ == (StreamingView { auto_follow: false, scroll: 0, ..old(self)@ }),
    {
        self.auto_follow = false;
        self.scroll_offset = 0;
    }

    /// Scroll to the bottom (the offset is clamped when rendering); turns auto-follow on.
    pub fn scroll_to_bottom(&mut self)
        ensures
            final(self)@ == (StreamingView { auto_follow: true, scroll: usize::MAX as int, ..old(self)@ }),
    {
        self.scroll_offset = usize::MAX;
        self.auto_follow = true;
    }

    /// Display line `index`: head lines, the omission marker, then tail lines
    /// (an empty text past the end).
    pub fn get_display_line(&self, index: usize) -> (r: DisplayLine)
        requires
            shape_ok(self@),
        ensures
            display_line_view(r) == display_at(self@, index as int),
    {
        let head_len = self.head.len();
        if index < head_len {
            DisplayLine::Text(self.head[index].clone())
        } else if self.omitted > 0 && index == head_len {
            DisplayLine::Omitted(self.omitted)
        } else {
            let tail_index = if self.omitted > 0 { index - head_len - 1 } else { index - head_len };
            if tail_index < self.tail.len() {
                DisplayLine::Text(self.tail[tail_index].clone())
            } else {
                DisplayLine::Text(String::new())
            }
        }
    }
}

impl View for StreamingOutput {
    type V = StreamingView;

    open spec fn view(&self) -> StreamingView {
        self.model()
    }
}

pub proof fn lemma_bytes_sum_prefix(ls: Seq<Seq<char>>, i: int)
    requires
        0 <= i < ls.len(),
    ensures
        bytes_sum(ls.take(i + 1)) == bytes_sum(ls.take(i)) + blen(ls[i]) + 1,
        bytes_sum(ls.take(i + 1)) <= bytes_sum(ls),
        0 <= bytes_sum(ls.take(i)),
    decreases ls.len() - i,
{
    assert(ls.take(i + 1).drop_last() =~= ls.take(i));
    lemma_bytes_sum_monotone(ls, i + 1);
    lemma_bytes_sum_nonneg(ls.take(i));
}

proof fn lemma_bytes_sum_nonneg(ls: Seq<Seq<char>>)
    ensures
        bytes_sum(ls) >= 0,
    decreases ls.len(),
{
    if ls.len() > 0 {
        lemma_bytes_sum_nonneg(ls.drop_last());
    }
}

proof fn lemma_bytes_sum_monotone(ls: Seq<Seq<char>>, k: int)
    requires
        0 <= k <= ls.len(),
    ensures
        bytes_sum(ls.take(k)) <= bytes_sum(ls),
    decreases ls.len() - k,
{
    if k < ls.len() {
        lemma_bytes_sum_monotone(ls, k + 1);
        assert(ls.take(k + 1).drop_last() =~= ls.take(k));
    } else {
        assert(ls.take(k) =~= ls);
    }
}

pub proof fn lemma_bytes_sum_concat(a: Seq<Seq<char>>, b: Seq<Seq<char>>)
    ensures
        bytes_sum(a + b) == bytes_sum(a) + bytes_sum(b),
    decreases b.len(),
{
    if b.len() == 0 {
        assert(a + b =~= a);
    } else {
        lemma_bytes_sum_concat(a, b.drop_last());
        assert((a + b).drop_last() =~= a + b.drop_last());
    }
}

/// Streaming output buffers for the active tool calls, keyed by call id.
pub struct StreamingOutputManager {
    outputs: Vec<(String, StreamingOutput)>,
    config: StreamingConfig,
}

/// Index of the entry with key `id` among entries `i..`.
pub open spec fn key_index_from(keys: Seq<Seq<char>>, id: Seq<char>, i: int) -> Option<int>
    decreases keys.len() - i,
{
    if i < 0 || i >= keys.len() {
        None
    } else if keys[i] == id {
        Some(i)
    } else {
        key_index_from(keys, id, i + 1)
    }
}

/// Index of the first entry with key `id` (from `i` on) whose buffer is focused.
pub open spec fn focused_index_from(outs: Seq<StreamingView>, i: int) -> Option<int>
    decreases outs.len() - i,
{
    if i < 0 || i >= outs.len() {
        None
    } else if outs[i].focused {
        Some(i)
    } else {
        focused_index_from(outs, i + 1)
    }
}


proof fn lemma_focus_index(outs: Seq<StreamingView>, keys: Seq<Seq<char>>, id: Seq<char>, i: int)
    requires
        outs.len() == keys.len(),
        0 <= i <= outs.len(),
        forall|j: int| 0 <= j < outs.len() ==> (#[trigger] outs[j]).focused == (keys[j] == id),
    ensures
        focused_index_from(outs, i) == key_index_from(keys, id, i),
    decreases outs.len() - i,
{
    if i < outs.len() {
        lemma_focus_index(outs, keys, id, i + 1);
    }
}

proof fn lemma_key_index_found(keys: Seq<Seq<char>>, id: Seq<char>, i: int)
    requires
        0 <= i,
    ensures
        key_index_from(keys, id, i) matches Some(j) ==> i <= j < keys.len() && keys[j] == id,
    decreases keys.len() - i,
{
    if i < keys.len() && keys[i] != id {
        lemma_key_index_found(keys, id, i + 1);
    }
}

/// After `focus(id)`, the buffer of each call id is focused exactly when it
/// is `id`'s, and the focused call id is `id` when the manager holds it and
/// none otherwise; no buffer is added or removed.
pub proof fn lemma_focus_law(before: StreamingOutputManager, after: StreamingOutputManager, id: Seq<char>)
    requires
        before.wf(),
        after.keys() == before.keys(),
        after.outs().len() == before.outs().len(),
        forall|j: int| 0 <= j < before.outs().len() ==> #[trigger] after.outs()[j]
            == (StreamingView { focused: before.keys()[j] == id, ..before.outs()[j] }),
    ensures
        forall|k: Seq<char>| #[trigger] after.out_of(k) is Some ==> after.out_of(k).unwrap().focused == (k == id),
        focused_index_from(after.outs(), 0) == key_index_from(after.keys(), id, 0),
        after.keys() == before.keys(),
{
    let outs = after.outs();
    let keys = after.keys();
    assert forall|j: int| 0 <= j < outs.len() implies (#[trigger] outs[j]).focused == (keys[j] == id) by {
        assert(outs[j] == (StreamingView { focused: before.keys()[j] == id, ..before.outs()[j] }));
    }
    lemma_focus_index(outs, keys, id, 0);
    assert forall|k: Seq<char>| #[trigger] after.out_of(k) is Some implies after.out_of(k).unwrap().focused == (k == id) by {
        lemma_key_index_found(keys, k, 0);
        match key_index_from(keys, k, 0) {
            Some(j) => {
                assert(after.out_of(k) == Some(outs[j]));
                assert(outs[j].focused == (keys[j] == id));
            },
            None => {},
        }
    }
}

impl StreamingOutputManager {
    /// The call ids, in order of first output.
    pub closed spec fn keys(&self) -> Seq<Seq<char>> {
        self.outputs@.map_values(|e: (String, StreamingOutput)| e.0@)
    }

    /// The buffers, in the same order as `keys`.
    pub closed spec fn outs(&self) -> Seq<StreamingView> {
        self.outputs@.map_values(|e: (String, StreamingOutput)| e.1@)
    }

    /// The configuration new buffers get.
    pub closed spec fn default_config(&self) -> StreamingConfig {
        self.config
    }

    /// Keys are distinct and every buffer has the truncation shape.
    pub open spec fn wf(&self) -> bool {
        &&& self.keys().len() == self.outs().len()
        &&& forall|a: int, b: int| 0 <= a < b < self.keys().len() ==> self.keys()[a] != self.keys()[b]
        &&& forall|i: int| 0 <= i < self.outs().len() ==> shape_ok(#[trigger] self.outs()[i])
    }

    /// The buffer of a call id, if it exists.
    pub open spec fn out_of(&self, id: Seq<char>) -> Option<StreamingView> {
        match key_index_from(self.keys(), id, 0) {
            Some(i) => Some(self.outs()[i]),
            None => None,
        }
    }

    pub fn new() -> (r: Self)
        ensures
            r.wf(),
            r.keys().len() == 0,
            r.default_config() == StreamingConfig::default_spec(),
    {
        let r = StreamingOutputManager { outputs: Vec::new(), config: StreamingConfig::default() };
        assert(r.keys() =~= Seq::<Seq<char>>::empty());
        assert(r.outs() =~= Seq::<StreamingView>::empty());
        r
    }

    fn find(&self, call_id: &str) -> (r: Option<usize>)
        ensures
            r matches Some(i) ==> key_index_from(self.keys(), call_id@, 0) == Some(i as int) && i < self.keys().len(),
            r is None ==> key_index_from(self.keys(), call_id@, 0) is None,
    {
        let mut i: usize = 0;
        while i < self.outputs.len()
            invariant
                i <= self.outputs@.len(),
                self.keys().len() == self.outputs@.len(),
                key_index_from(self.keys(), call_id@, 0) == key_index_from(self.keys(), call_id@, i as int),
            decreases self.outputs@.len() - i,
        {
            assert(self.keys()[i as int] == self.outputs@[i as int].0@);
            if str_eq(self.outputs[i].0.as_str(), call_id) {
                return Some(i);
            }
            i += 1;
        }
        None
    }

    /// Whether a buffer exists for a call id.
    pub fn has(&self, call_id: &str) -> (r: bool)
        ensures
            r == (key_index_from(self.keys(), call_id@, 0) is Some),
    {
        self.find(call_id).is_some()
    }

    /// The buffer of a call id.
    pub fn get(&self, call_id: &str) -> (r: Option<&StreamingOutput>)
        ensures
            match r {
                Some(o) => self.out_of(call_id@) == Some(o@),
                None => self.out_of(call_id@) is None,
            },
    {
        match self.find(call_id) {
            Some(i) => Some(&self.outputs[i].1),
            None => None,
        }
    }

    /// The buffer of a call id, for scroll control.
    pub fn get_mut(&mut self, call_id: &str) -> (r: Option<&mut StreamingOutput>)
        ensures
            match r {
                Some(o) => key_index_from(old(self).keys(), call_id@, 0) matches Some(i)
                    && o@ == old(self).outs()[i]
                    && final(self).keys() == old(self).keys()
                    && final(self).default_config() == old(self).default_config()
                    && final(self).outs() == old(self).outs().update(i, final(o)@),
                None => key_index_from(old(self).keys(), call_id@, 0) is None && *final(self) == *old(self),
            },
    {
        match self.find(call_id) {
            Some(i) => {
                Some(&mut self.outputs[i].1)
            },
            None => None,
        }
    }

    /// Append every line of a text to the buffer of a call id, creating the
    /// buffer when it does not exist.
    pub fn add_text(&mut self, call_id: &str, text: &str)
        requires
            old(self).wf(),
            ({
                let o = match key_index_from(old(self).keys(), call_id@, 0) {
                    Some(i) => old(self).outs()[i],
                    None => StreamingOutput::fresh_view(old(self).default_config()),
                };
                &&& o.total_lines + text_lines(text@).len() <= usize::MAX
                &&& o.total_bytes + bytes_sum(text_lines(text@)) <= usize::MAX
                &&& o.config.tail_lines == 0 ==> o.head.len() + text_lines(text@).len() <= o.config.head_lines
            }),
        ensures
            final(self).wf(),
            final(self).default_config() == old(self).default_config(),
            match key_index_from(old(self).keys(), call_id@, 0) {
                Some(i) => {
                    &&& final(self).keys() == old(self).keys()
                    &&& final(self).outs().len() == old(self).outs().len()
                    &&& forall|j: int| 0 <= j < old(self).outs().len() && j != i ==> final(self).outs()[j] == old(self).outs()[j]
                    &&& final(self).outs()[i].seen == old(self).outs()[i].seen + text_lines(text@)
                    &&& final(self).outs()[i].config == old(self).outs()[i].config
                    &&& final(self).outs()[i].focused == old(self).outs()[i].focused
                },
                None => {
                    &&& final(self).keys() == old(self).keys().push(call_id@)
                    &&& final(self).outs().drop_last() == old(self).outs()
                    &&& final(self).outs().last().seen == text_lines(text@)
                    &&& final(self).outs().last().config == old(self).default_config()
                    &&& !final(self).outs().last().focused
                },
            },
    {
        let i = match self.find(call_id) {
            Some(i) => i,
            None => {
                let out = StreamingOutput::with_config(self.config);
                self.outputs.push((to_owned_string(call_id), out));
                proof {
                    lemma_key_none(old(self).keys(), call_id@, 0);
                    assert(self.keys() =~= old(self).keys().push(call_id@));
                    assert(self.outs() =~= old(self).outs().push(out@));
                }
                (self.outputs.len() - 1)
            },
        };
        let ghost mid_keys = self.keys();
        let ghost mid_outs = self.outs();
        let (key, mut out) = self.outputs.remove(i);
        out.push_text(text);
        self.outputs.insert(i, (key, out));
        proof {
            assert(self.keys() =~= mid_keys);
            assert(self.outs() =~= mid_outs.update(i as int, out@));
            assert(Seq::<Seq<char>>::empty() + text_lines(text@) =~= text_lines(text@));
        }
    }

    /// Remove the buffer of a call id (no change when there is none).
    pub fn remove(&mut self, call_id: &str)
        requires
            old(self).wf(),
        ensures
            final(self).wf(),
            final(self).default_config() == old(self).default_config(),
            match key_index_from(old(self).keys(), call_id@, 0) {
                Some(i) => final(self).keys() == old(self).keys().remove(i) && final(self).outs() == old(self).outs().remove(i),
                None => final(self).keys() == old(self).keys() && final(self).outs() == old(self).outs(),
            },
    {
        if let Some(i) = self.find(call_id) {
            self.outputs.remove(i);
            proof {
                assert(self.keys() =~= old(self).keys().remove(i as int));
                assert(self.outs() =~= old(self).outs().remove(i as int));
            }
        }
    }

    /// The call id of the first focused buffer, if any.
    pub fn focused_call_id(&self) -> (r: Option<&str>)
        ensures
            match r {
                Some(id) => focused_index_from(self.outs(), 0) matches Some(i) && id@ == self.keys()[i],
                None => focused_index_from(self.outs(), 0) is None,
            },
    {
        let mut i: usize = 0;
        while i < self.outputs.len()
            invariant
                i <= self.outputs@.len(),
                self.outs().len() == self.outputs@.len(),
                self.keys().len() == self.outputs@.len(),
                focused_index_from(self.outs(), 0) == focused_index_from(self.outs(), i as int),
            decreases self.outputs@.len() - i,
        {
            assert(self.outs()[i as int].focused == self.outputs@[i as int].1.focused);
            if self.outputs[i].1.focused {
                assert(self.keys()[i as int] == self.outputs@[i as int].0@);
                return Some(self.outputs[i].0.as_str());
            }
            i += 1;
        }
        None
    }

    /// Unfocus every buffer, then focus the one of `call_id` (if any).
    pub fn focus(&mut self, call_id: &str)
        requires
            old(self).wf(),
        ensures
            final(self).wf(),
            final(self).keys() == old(self).keys(),
            final(self).default_config() == old(self).default_config(),
            final(self).outs().len() == old(self).outs().len(),
            forall|j: int| 0 <= j < old(self).outs().len() ==> #[trigger] final(self).outs()[j]
                == (StreamingView { focused: old(self).keys()[j] == call_id@, ..old(self).outs()[j] }),
    {
        self.unfocus_all();
        let ghost mid = self.outs();
        if let Some(i) = self.find(call_id) {
            let (key, mut out) = self.outputs.remove(i);
            assert(out@ == mid[i as int]);
            out.focused = true;
            assert(out@ == (StreamingView { focused: true, ..mid[i as int] }));
            self.outputs.insert(i, (key, out));
            proof {
                lemma_key_some(old(self).keys(), call_id@, 0);
                assert(self.keys() =~= old(self).keys());
                assert(self.outs() =~= mid.update(i as int, out@));
                assert forall|j: int| 0 <= j < self.outs().len() implies shape_ok(#[trigger] self.outs()[j]) by {
                    assert(shape_ok(mid[j]));
                }
                assert forall|j: int| 0 <= j < old(self).outs().len() implies #[trigger] self.outs()[j]
                    == (StreamingView { focused: old(self).keys()[j] == call_id@, ..old(self).outs()[j] }) by {
                    if j != i {
                        assert(old(self).keys()[j] != old(self).keys()[i as int]);
                    }
                }
            }
        } else {
            proof {
                lemma_key_none(old(self).keys(), call_id@, 0);
            }
        }
    }

    /// Unfocus every buffer.
    pub fn unfocus_all(&mut self)
        requires
            old(self).wf(),
        ensures
            final(self).wf(),
            final(self).keys() == old(self).keys(),
            final(self).default_config() == old(self).default_config(),
            final(self).outs().len() == old(self).outs().len(),
            forall|j: int| 0 <= j < old(self).outs().len() ==> #[trigger] final(self).outs()[j]
                == (StreamingView { focused: false, ..old(self).outs()[j] }),
    {
        let mut i: usize = 0;
        while i < self.outputs.len()
            invariant
                i <= self.outputs@.len(),
                self.wf(),
                self.keys() == old(self).keys(),
                self.default_config() == old(self).default_config(),
                self.outs().len() == old(self).outs().len(),
                forall|j: int| 0 <= j < i ==> #[trigger] self.outs()[j] == (StreamingView { focused: false, ..old(self).outs()[j] }),
                forall|j: int| i <= j < self.outs().len() ==> #[trigger] self.outs()[j] == old(self).outs()[j],
            decreases self.outputs@.len() - i,
        {
            let ghost before_keys = self.keys();
            let ghost before = self.outs();
            let (key, mut out) = self.outputs.remove(i);
            assert(out@ == before[i as int]);
            out.focused = false;
            assert(out@ == (StreamingView { focused: false, ..before[i as int] }));
            self.outputs.insert(i, (key, out));
            proof {
                assert(self.keys() =~= before_keys);
                assert(self.outs() =~= before.update(i as int, out@));
                assert(shape_ok(before[i as int]));
                assert forall|j: int| 0 <= j < self.outs().len() implies shape_ok(#[trigger] self.outs()[j]) by {
                    assert(shape_ok(before[j]));
                }
            }
            i += 1;
        }
    }

    /// Number of buffers.
    pub fn active_count(&self) -> (r: usize)
        ensures
            r == self.keys().len(),
    {
        self.outputs.len()
    }

    /// Append a line to the buffer of a call id, creating the buffer (with
    /// the manager's configuration) when it does not exist.
    pub fn add_line(&mut self, call_id: &str, line: &str)
        requires
            old(self).wf(),
            match key_index_from(old(self).keys(), call_id@, 0) {
                Some(i) => push_ok(old(self).outs()[i], line@),
                None => push_ok(StreamingOutput::fresh_view(old(self).default_config()), line@),
            },
        ensures
            final(self).wf(),
            final(self).default_config() == old(self).default_config(),
            match key_index_from(old(self).keys(), call_id@, 0) {
                Some(i) => {
                    &&& final(self).keys() == old(self).keys()
                    &&& final(self).outs().len() == old(self).outs().len()
                    &&& forall|j: int| 0 <= j < old(self).outs().len() && j != i ==> final(self).outs()[j] == old(self).outs()[j]
                    &&& final(self).outs()[i].seen == old(self).outs()[i].seen.push(line@)
                    &&& final(self).outs()[i].config == old(self).outs()[i].config
                    &&& final(self).outs()[i].focused == old(self).outs()[i].focused
                },
                None => {
                    &&& final(self).keys() == old(self).keys().push(call_id@)
                    &&& final(self).outs().drop_last() == old(self).outs()
                    &&& final(self).outs().last().seen == seq![line@]
                    &&& final(self).outs().last().config == old(self).default_config()
                    &&& !final(self).outs().last().focused
                },
            },
    {
        let i = match self.find(call_id) {
            Some(i) => i,
            None => {
                let out = StreamingOutput::with_config(self.config);
                self.outputs.push((to_owned_string(call_id), out));
                proof {
                    lemma_key_none(old(self).keys(), call_id@, 0);
                    assert(self.keys() =~= old(self).keys().push(call_id@));
                    assert(self.outs() =~= old(self).outs().push(out@));
                    assert(out@ == StreamingOutput::fresh_view(self.config));
                }
                (self.outputs.len() - 1)
            },
        };
        let ghost mid_keys = self.keys();
        let ghost mid_outs = self.outs();
        let (key, mut out) = self.outputs.remove(i);
        out.push_line(line);
        self.outputs.insert(i, (key, out));
        proof {
            assert(self.keys() =~= mid_keys);
            assert(self.outs() =~= mid_outs.update(i as int, out@));
        }
    }
}

impl StreamingOutput {
    /// The state of a fresh buffer with configuration `c`.
    pub open spec fn fresh_view(c: StreamingConfig) -> StreamingView {
        StreamingView {
            seen: seq![],
            head: seq![],
            tail: seq![],
            total_lines: 0,
            total_bytes: 0,
            omitted: 0,
            scroll: 0,
            auto_follow: true,
            focused: false,
            config: c,
        }
    }
}

impl StreamingConfig {
    pub open spec fn default_spec() -> StreamingConfig {
        StreamingConfig { max_lines: 2000, head_lines: 200, tail_lines: 200, visible_lines: 16 }
    }
}

proof fn lemma_key_none(keys: Seq<Seq<char>>, id: Seq<char>, j: int)
    requires
        0 <= j,
        key_index_from(keys, id, j) is None,
    ensures
        forall|k: int| j <= k < keys.len() ==> keys[k] != id,
    decreases keys.len() - j,
{
    if j < keys.len() {
        lemma_key_none(keys, id, j + 1);
    }
}

proof fn lemma_key_some(keys: Seq<Seq<char>>, id: Seq<char>, j: int)
    requires
        0 <= j,
        key_index_from(keys, id, j) is Some,
    ensures
        ({
            let k = key_index_from(keys, id, j)->0;
            j <= k < keys.len() && keys[k] == id
        }),
    decreases keys.len() - j,
{
    if j < keys.len() && keys[j] != id {
        lemma_key_some(keys, id, j + 1);
    }
}

proof fn lemma_key_scan(keys: Seq<Seq<char>>, id: Seq<char>, j: int, k: int)
    requires
        0 <= j <= k < keys.len(),
        keys[k] == id,
        forall|a: int, b: int| 0 <= a < b < keys.len() ==> keys[a] != keys[b],
    ensures
        key_index_from(keys, id, j) == Some(k),
    decreases k - j,
{
    if j < k {
        lemma_key_scan(keys, id, j + 1, k);
    }
}

proof fn lemma_key_absent(keys: Seq<Seq<char>>, id: Seq<char>, j: int)
    requires
        0 <= j,
        forall|k: int| j <= k < keys.len() ==> keys[k] != id,
    ensures
        key_index_from(keys, id, j) is None,
    decreases keys.len() - j,
{
    if j < keys.len() {
        lemma_key_absent(keys, id, j + 1);
    }
}

/// After `remove(id)` the manager no longer holds `id`, holds one buffer
/// fewer exactly when it held `id`, and every other call id keeps its buffer.
pub proof fn lemma_remove_law(before: StreamingOutputManager, after: StreamingOutputManager, id: Seq<char>)
    requires
        before.wf(),
        match key_index_from(before.keys(), id, 0) {
            Some(i) => after.keys() == before.keys().remove(i) && after.outs() == before.outs().remove(i),
            None => after.keys() == before.keys() && after.outs() == before.outs(),
        },
    ensures
        after.out_of(id) is None,
        after.keys().len() == before.keys().len() - (if before.out_of(id) is Some { 1int } else { 0int }),
        forall|k: Seq<char>| k != id ==> #[trigger] after.out_of(k) == before.out_of(k),
{
    let ks = before.keys();
    let os = before.outs();
    match key_index_from(ks, id, 0) {
        Some(i) => {
            lemma_key_some(ks, id, 0);
            let ks2 = ks.remove(i);
            let os2 = os.remove(i);
            assert forall|t: int| 0 <= t < ks2.len() implies ks2[t] != id by {
                if t < i {
                    assert(ks2[t] == ks[t]);
                } else {
                    assert(ks2[t] == ks[t + 1]);
                }
            }
            lemma_key_absent(ks2, id, 0);
            assert forall|k: Seq<char>| k != id implies #[trigger] after.out_of(k) == before.out_of(k) by {
                match key_index_from(ks, k, 0) {
                    Some(m) => {
                        lemma_key_some(ks, k, 0);
                        let m2 = if m < i { m } else { m - 1 };
                        assert(m != i);
                        assert(ks2[m2] == k);
                        assert forall|a: int, b: int| 0 <= a < b < ks2.len() implies ks2[a] != ks2[b] by {
                            let a1 = if a < i { a } else { a + 1 };
                            let b1 = if b < i { b } else { b + 1 };
                            assert(ks2[a] == ks[a1] && ks2[b] == ks[b1]);
                        }
                        lemma_key_scan(ks2, k, 0, m2);
                        assert(os2[m2] == os[m]);
                    },
                    None => {
                        lemma_key_none(ks, k, 0);
                        assert forall|t: int| 0 <= t < ks2.len() implies ks2[t] != k by {
                            if t < i {
                                assert(ks2[t] == ks[t]);
                            } else {
                                assert(ks2[t] == ks[t + 1]);
                            }
                        }
                        lemma_key_absent(ks2, k, 0);
                    },
                }
            }
        },
        None => {},
    }
}

/// Truncation law: at every point, the head is the first `min(n, head_lines)`
/// lines received, the tail the last `min(n - head, tail_lines)` lines, and
/// the omitted count accounts for exactly the lines in between.
pub proof fn lemma_truncation_shape(out: StreamingOutput)
    requires
        shape_ok(out@),
    ensures
        out@.head == out@.seen.take(min_int(out@.seen.len() as int, out@.config.head_lines as int)),
        out@.tail == out@.seen.skip(out@.seen.len() - out@.tail.len()),
        out@.tail.len() == min_int(out@.seen.len() - out@.head.len(), out@.config.tail_lines as int),
        out@.head.len() + out@.omitted + out@.tail.len() == out@.total_lines,
        display_count(out@) == out@.head.len() + out@.tail.len() + if out@.omitted > 0 { 1int } else { 0int },
{
    assert(out@.seen.skip(out@.seen.len() - out@.tail.len()) =~= out@.seen.subrange(out@.seen.len() - out@.tail.len(), out@.seen.len() as int));
}

} // verus!
