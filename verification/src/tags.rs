//! Tags, priority cookies and property drawers: models and editor state machines.
use vstd::prelude::*;
use crate::text::{chars_of, string_of, push_char, push_str, pop_char, to_lowercase, lowercase, contains_sub,
    contains_chars, strings_contain, trim, skip_ws_forward, skip_ws_backward, split_on, lemma_split_on_join,
    lemma_split_on_none, lemma_split_on_nonempty};

verus! {

// ── Priority cookies ────────────────────────────────────────────────────────

/// Index of the first occurrence of `c` in `s` at or after `i`.
pub open spec fn first_index_from(s: Seq<char>, c: char, i: int) -> Option<int>
    decreases s.len() - i,
{
    if i < 0 || i >= s.len() {
        None
    } else if s[i] == c {
        Some(i)
    } else {
        first_index_from(s, c, i + 1)
    }
}

/// The priority after `current` in a cycle: `None` goes to the first, the
/// last (or an unknown priority) goes to `None`.
pub open spec fn next_priority(cycle: Seq<char>, current: Option<char>) -> Option<char> {
    match current {
        None => if cycle.len() > 0 { Some(cycle[0]) } else { None },
        Some(c) => match first_index_from(cycle, c, 0) {
            Some(i) => if i + 1 < cycle.len() { Some(cycle[i + 1]) } else { None },
            None => None,
        },
    }
}

proof fn lemma_first_index_distinct(s: Seq<char>, i: int, j: int)
    requires
        forall|a: int, b: int| 0 <= a < b < s.len() ==> s[a] != s[b],
        0 <= j <= i < s.len(),
    ensures
        first_index_from(s, s[i], j) == Some(i),
    decreases i - j,
{
    if j < i {
        assert(s[j] != s[i]);
        lemma_first_index_distinct(s, i, j + 1);
    }
}

proof fn lemma_first_index_absent(s: Seq<char>, c: char, j: int)
    requires
        0 <= j,
        !s.contains(c),
    ensures
        first_index_from(s, c, j) is None,
    decreases s.len() - j,
{
    if j < s.len() {
        assert(s[j] != c) by {
            if s[j] == c {
                assert(s.contains(c));
            }
        }
        lemma_first_index_absent(s, c, j + 1);
    }
}

/// Cycling through distinct priorities: no priority goes to the first one,
/// each priority to the one after it, the last one back to none, and a
/// priority outside the cycle to none.
pub proof fn lemma_priority_cycle_order(cycle: Seq<char>, i: int, other: char)
    requires
        forall|a: int, b: int| 0 <= a < b < cycle.len() ==> cycle[a] != cycle[b],
        0 <= i < cycle.len(),
        !cycle.contains(other),
    ensures
        next_priority(cycle, None) == Some(cycle[0]),
        i + 1 < cycle.len() ==> next_priority(cycle, Some(cycle[i])) == Some(cycle[i + 1]),
        i + 1 == cycle.len() ==> next_priority(cycle, Some(cycle[i])) is None,
        next_priority(cycle, Some(other)) is None,
{
    lemma_first_index_distinct(cycle, i, 0);
    lemma_first_index_absent(cycle, other, 0);
}

/// The sequence of priorities a cookie cycles through.
pub struct PriorityCycler {
    pub cycle: Vec<char>,
}

impl PriorityCycler {
    pub fn new(cycle: Vec<char>) -> (r: Self)
        ensures
            r.cycle@ == cycle@,
    {
        PriorityCycler { cycle }
    }

    /// The cycle `A`, `B`, `C`.
    pub fn default_cycle() -> (r: Self)
        ensures
            r.cycle@ == seq!['A', 'B', 'C'],
    {
        Self::new(vec!['A', 'B', 'C'])
    }

    /// Next priority: `None` → first, last → `None`.
    pub fn cycle(&self, current: Option<char>) -> (r: Option<char>)
        ensures
            r == next_priority(self.cycle@, current),
    {
        match current {
            None => if self.cycle.len() > 0 { Some(self.cycle[0]) } else { None },
            Some(c) => match position_of_char(self.cycle.as_slice(), c) {
                Some(i) => if i < self.cycle.len() - 1 { Some(self.cycle[i + 1]) } else { None },
                None => None,
            },
        }
    }
}

/// Index of the first occurrence of `c`.
pub fn position_of_char(v: &[char], c: char) -> (r: Option<usize>)
    ensures
        r matches Some(i) ==> first_index_from(v@, c, 0) == Some(i as int) && i < v@.len(),
        r is None ==> first_index_from(v@, c, 0) is None,
{
    let mut i: usize = 0;
    while i < v.len()
        invariant
            i <= v@.len(),
            first_index_from(v@, c, 0) == first_index_from(v@, c, i as int),
        decreases v@.len() - i,
    {
        if v[i] == c {
            return Some(i);
        }
        i += 1;
    }
    None
}

/// `[#c]` for a priority, empty for none.
pub fn format_priority(p: Option<char>) -> (r: String)
    ensures
        r@ == match p {
            Some(c) => seq!['[', '#', c, ']'],
            None => Seq::<char>::empty(),
        },
{
    let mut s = String::new();
    match p {
        Some(c) => {
            push_char(&mut s, '[');
            push_char(&mut s, '#');
            push_char(&mut s, c);
            push_char(&mut s, ']');
            assert(s@ =~= seq!['[', '#', c, ']']);
        },
        None => {},
    }
    s
}

// ── Tag model ───────────────────────────────────────────────────────────────

/// Tags joined by `:`.
pub open spec fn join_colon(tags: Seq<Seq<char>>) -> Seq<char>
    decreases tags.len(),
{
    if tags.len() == 0 {
        seq![]
    } else if tags.len() == 1 {
        tags[0]
    } else {
        join_colon(tags.drop_last()) + seq![':'] + tags.last()
    }
}

/// `:tag1:tag2:` for a non-empty list, the empty string otherwise.
pub open spec fn format_tags_spec(tags: Seq<Seq<char>>) -> Seq<char> {
    if tags.len() == 0 { seq![] } else { seq![':'] + join_colon(tags) + seq![':'] }
}

/// Format tags as `:tag1:tag2:`; no tags give the empty string.
pub fn format_tags(tags: &[String]) -> (r: String)
    ensures
        r@ == format_tags_spec(tags.deep_view()),
{
    if tags.len() == 0 {
        return String::new();
    }
    let ghost tv = tags.deep_view();
    let mut s = String::new();
    push_char(&mut s, ':');
    push_str(&mut s, tags[0].as_str());
    let mut i: usize = 1;
    assert(tv.take(1).drop_last() =~= Seq::<Seq<char>>::empty());
    assert(s@ =~= seq![':'] + join_colon(tv.take(1)));
    while i < tags.len()
        invariant
            tv == tags.deep_view(),
            1 <= i <= tv.len(),
            s@ == seq![':'] + join_colon(tv.take(i as int)),
        decreases tv.len() - i,
    {
        push_char(&mut s, ':');
        push_str(&mut s, tags[i].as_str());
        assert(tv.take(i + 1).drop_last() =~= tv.take(i as int));
        assert(s@ =~= seq![':'] + join_colon(tv.take(i + 1)));
        i += 1;
    }
    push_char(&mut s, ':');
    assert(tv.take(tv.len() as int) =~= tv);
    s
}

/// `s` split at every `:`.
pub open spec fn split_colon(s: Seq<char>) -> Seq<Seq<char>>
    decreases s.len(),
{
    if s.len() == 0 {
        seq![seq![]]
    } else {
        let init = split_colon(s.drop_last());
        if s.last() == ':' {
            init.push(seq![])
        } else {
            init.update(init.len() - 1, init.last().push(s.last()))
        }
    }
}

/// The non-empty pieces of a list.
pub open spec fn nonempty_only(ss: Seq<Seq<char>>) -> Seq<Seq<char>>
    decreases ss.len(),
{
    if ss.len() == 0 {
        seq![]
    } else if ss.last().len() == 0 {
        nonempty_only(ss.drop_last())
    } else {
        nonempty_only(ss.drop_last()).push(ss.last())
    }
}

proof fn lemma_split_colon_nonempty(s: Seq<char>)
    ensures
        split_colon(s).len() >= 1,
    decreases s.len(),
{
    if s.len() > 0 {
        lemma_split_colon_nonempty(s.drop_last());
    }
}

proof fn lemma_split_colon_is_split_on(s: Seq<char>)
    ensures
        split_colon(s) == split_on(s, ':'),
    decreases s.len(),
{
    if s.len() > 0 {
        lemma_split_colon_is_split_on(s.drop_last());
    }
}

proof fn lemma_split_joined(tags: Seq<Seq<char>>)
    requires
        tags.len() > 0,
        forall|k: int, i: int| 0 <= k < tags.len() && 0 <= i < tags[k].len() ==> #[trigger] tags[k][i] != ':',
    ensures
        split_on(join_colon(tags), ':') == tags,
    decreases tags.len(),
{
    let last = tags.last();
    assert forall|i: int| 0 <= i < last.len() implies last[i] != ':' by {
        assert(tags[tags.len() - 1][i] != ':');
    }
    lemma_split_on_none(last, ':');
    if tags.len() == 1 {
        assert(seq![tags[0]] =~= tags);
    } else {
        let init = tags.drop_last();
        assert forall|k: int, i: int| 0 <= k < init.len() && 0 <= i < init[k].len() implies #[trigger] init[k][i]
            != ':' by {
            assert(init[k] == tags[k]);
        }
        lemma_split_joined(init);
        lemma_split_on_join(join_colon(init), last, ':');
        assert(init + seq![last] =~= tags);
    }
}

proof fn lemma_nonempty_only_front(ss: Seq<Seq<char>>)
    requires
        forall|i: int| 0 <= i < ss.len() ==> (#[trigger] ss[i]).len() > 0,
    ensures
        nonempty_only(seq![Seq::<char>::empty()] + ss) == ss,
    decreases ss.len(),
{
    let e = seq![Seq::<char>::empty()];
    if ss.len() == 0 {
        assert(e + ss =~= e);
        assert(e.drop_last() =~= Seq::<Seq<char>>::empty());
        assert(e.last().len() == 0);
        assert(nonempty_only(e + ss) == nonempty_only(Seq::<Seq<char>>::empty()));
        assert(ss =~= Seq::<Seq<char>>::empty());
    } else {
        assert forall|i: int| 0 <= i < ss.drop_last().len() implies (#[trigger] ss.drop_last()[i]).len() > 0 by {
            assert(ss.drop_last()[i] == ss[i]);
        }
        assert(ss[ss.len() - 1].len() > 0);
        lemma_nonempty_only_front(ss.drop_last());
        assert((e + ss).drop_last() =~= e + ss.drop_last());
        assert((e + ss).last() == ss.last());
        assert(ss.drop_last().push(ss.last()) =~= ss);
    }
}

/// Parsing formatted tags gives the tags back, for tags that are not empty
/// and hold no `:`.
pub proof fn lemma_parse_format_roundtrip(tags: Seq<Seq<char>>)
    requires
        forall|k: int| 0 <= k < tags.len() ==> (#[trigger] tags[k]).len() > 0,
        forall|k: int, i: int| 0 <= k < tags.len() && 0 <= i < tags[k].len() ==> #[trigger] tags[k][i] != ':',
    ensures
        nonempty_only(split_colon(format_tags_spec(tags))) == tags,
{
    let f = format_tags_spec(tags);
    lemma_split_colon_is_split_on(f);
    if tags.len() == 0 {
        assert(split_on(Seq::<char>::empty(), ':') =~= seq![Seq::<char>::empty()]);
        assert(seq![Seq::<char>::empty()].drop_last() =~= Seq::<Seq<char>>::empty());
        assert(seq![Seq::<char>::empty()].last().len() == 0);
        assert(nonempty_only(seq![Seq::<char>::empty()]) == nonempty_only(Seq::<Seq<char>>::empty()));
        assert(tags =~= Seq::<Seq<char>>::empty());
    } else {
        let j = join_colon(tags);
        let e = Seq::<char>::empty();
        assert(f =~= e + seq![':'] + (j + seq![':'] + e));
        lemma_split_on_join(e, j + seq![':'] + e, ':');
        lemma_split_on_join(j, e, ':');
        lemma_split_joined(tags);
        assert(split_on(e, ':') =~= seq![e]);
        let parts = split_on(f, ':');
        assert(parts =~= seq![e] + tags + seq![e]);
        assert(parts.drop_last() =~= seq![e] + tags);
        assert(parts.last().len() == 0);
        assert(nonempty_only(parts) == nonempty_only(seq![e] + tags));
        lemma_nonempty_only_front(tags);
    }
}

/// Parse a `:tag1:tag2:` string: the non-empty pieces between colons.
pub fn parse_tags(s: &str) -> (r: Vec<String>)
    ensures
        r.deep_view() == nonempty_only(split_colon(s@)),
{
    let v = chars_of(s);
    let mut out: Vec<String> = Vec::new();
    let mut cur: Vec<char> = Vec::new();
    let mut i: usize = 0;
    while i < v.len()
        invariant
            v@ == s@,
            i <= v@.len(),
            split_colon(v@.take(i as int)).len() >= 1,
            split_colon(v@.take(i as int)).last() == cur@,
            nonempty_only(split_colon(v@.take(i as int)).drop_last()) == out.deep_view(),
        decreases v@.len() - i,
    {
        let c = v[i];
        let ghost p = v@.take(i as int);
        let ghost p1 = v@.take(i + 1);
        assert(p1.drop_last() =~= p);
        assert(p1.last() == c);
        proof { lemma_split_colon_nonempty(p); }
        if c == ':' {
            let ghost prev = split_colon(p);
            assert(split_colon(p1) == prev.push(seq![]));
            assert(split_colon(p1).drop_last() =~= prev);
            if cur.len() > 0 {
                assert(prev.drop_last() =~= prev.take(prev.len() - 1));
                assert(nonempty_only(prev) == nonempty_only(prev.drop_last()).push(cur@));
                out.push(string_of(cur.as_slice()));
                assert(out.deep_view() =~= nonempty_only(prev));
            } else {
                assert(nonempty_only(prev) == nonempty_only(prev.drop_last()));
            }
            cur = Vec::new();
            assert(split_colon(p1).last() =~= cur@);
        } else {
            let ghost prev = split_colon(p);
            assert(split_colon(p1) == prev.update(prev.len() - 1, prev.last().push(c)));
            assert(split_colon(p1).drop_last() =~= prev.drop_last());
            cur.push(c);
        }
        i += 1;
    }
    assert(v@.take(v@.len() as int) =~= s@);
    let ghost whole = split_colon(s@);
    if cur.len() > 0 {
        assert(nonempty_only(whole) == nonempty_only(whole.drop_last()).push(cur@));
        out.push(string_of(cur.as_slice()));
        assert(out.deep_view() =~= nonempty_only(whole));
    } else {
        assert(nonempty_only(whole) == nonempty_only(whole.drop_last()));
    }
    out
}

/// A character allowed in a tag: ASCII letter or digit, `_` or `-`.
pub open spec fn tag_char(c: char) -> bool {
    ('a' <= c && c <= 'z') || ('A' <= c && c <= 'Z') || ('0' <= c && c <= '9') || c == '_' || c == '-'
}

/// A valid tag: non-empty, only tag characters (every byte ASCII
/// alphanumeric, `_` or `-`).
pub open spec fn valid_tag(s: Seq<char>) -> bool {
    s.len() > 0 && forall|i: int| 0 <= i < s.len() ==> tag_char(#[trigger] s[i])
}

fn is_tag_char(c: char) -> (r: bool)
    ensures
        r == tag_char(c),
{
    ('a' <= c && c <= 'z') || ('A' <= c && c <= 'Z') || ('0' <= c && c <= '9') || c == '_' || c == '-'
}

fn valid_tag_chars(v: &[char]) -> (r: bool)
    ensures
        r == valid_tag(v@),
{
    if v.len() == 0 {
        return false;
    }
    let mut i: usize = 0;
    while i < v.len()
        invariant
            i <= v@.len(),
            forall|j: int| 0 <= j < i ==> tag_char(#[trigger] v@[j]),
        decreases v@.len() - i,
    {
        if !is_tag_char(v[i]) {
            return false;
        }
        i += 1;
    }
    true
}

/// Whether a tag is valid (non-empty; ASCII alphanumerics, `_` and `-`).
pub fn is_valid_tag(tag: &str) -> (r: bool)
    ensures
        r == valid_tag(tag@),
{
    let v = chars_of(tag);
    valid_tag_chars(v.as_slice())
}

// ── Property editor ─────────────────────────────────────────────────────────

/// Which part of the selected property receives typed characters.
#[derive(Debug, Clone, Copy, PartialEq, Eq)]
pub enum EditMode {
    NoEdit,
    Key,
    Value,
}

/// State of a property drawer editor.
pub struct PropertyEditorState {
    pub properties: Vec<(String, String)>,
    pub selected: usize,
    pub edit_mode: EditMode,
}

/// Actions of the property editor.
#[derive(Debug, Clone, PartialEq, Eq)]
pub enum PropertyAction {
    SelectNext,
    SelectPrev,
    EditKey,
    EditValue,
    TypeChar(char),
    Backspace,
    AddProperty,
    DeleteProperty,
    Confirm,
    Cancel,
}

/// The mathematical content of a property editor.
pub struct PropertyView {
    pub properties: Seq<(Seq<char>, Seq<char>)>,
    pub selected: int,
    pub edit_mode: EditMode,
}

impl View for PropertyEditorState {
    type V = PropertyView;

    open spec fn view(&self) -> PropertyView {
        PropertyView { properties: self.properties.deep_view(), selected: self.selected as int, edit_mode: self.edit_mode }
    }
}

/// The selected property with its key or value edited by `f`.
pub open spec fn edit_selected(v: PropertyView, key: Seq<char>, value: Seq<char>) -> PropertyView {
    PropertyView { properties: v.properties.update(v.selected, (key, value)), ..v }
}

/// What a property action does.
pub open spec fn property_step(v: PropertyView, a: PropertyAction) -> PropertyView {
    let n = v.properties.len();
    match a {
        PropertyAction::SelectNext => PropertyView {
            edit_mode: EditMode::NoEdit,
            selected: if n == 0 { 0 } else if v.selected + 1 < n - 1 { v.selected + 1 } else { n - 1 },
            ..v
        },
        PropertyAction::SelectPrev => PropertyView {
            edit_mode: EditMode::NoEdit,
            selected: if v.selected > 0 { v.selected - 1 } else { 0 },
            ..v
        },
        PropertyAction::EditKey => PropertyView { edit_mode: EditMode::Key, ..v },
        PropertyAction::EditValue => PropertyView { edit_mode: EditMode::Value, ..v },
        PropertyAction::TypeChar(c) => {
            if 0 <= v.selected < n {
                let (k, val) = v.properties[v.selected];
                match v.edit_mode {
                    EditMode::Key => edit_selected(v, k.push(c), val),
                    EditMode::Value => edit_selected(v, k, val.push(c)),
                    EditMode::NoEdit => v,
                }
            } else {
                v
            }
        },
        PropertyAction::Backspace => {
            if 0 <= v.selected < n {
                let (k, val) = v.properties[v.selected];
                match v.edit_mode {
                    EditMode::Key => edit_selected(v, if k.len() > 0 { k.drop_last() } else { k }, val),
                    EditMode::Value => edit_selected(v, k, if val.len() > 0 { val.drop_last() } else { val }),
                    EditMode::NoEdit => v,
                }
            } else {
                v
            }
        },
        PropertyAction::AddProperty => PropertyView {
            properties: v.properties.push((seq![], seq![])),
            selected: n as int,
            edit_mode: EditMode::Key,
        },
        PropertyAction::DeleteProperty => {
            if n == 0 {
                v
            } else {
                let props = v.properties.remove(v.selected);
                PropertyView {
                    properties: props,
                    selected: if v.selected >= props.len() && props.len() > 0 { props.len() - 1 } else { v.selected },
                    edit_mode: EditMode::NoEdit,
                }
            }
        },
        PropertyAction::Confirm => PropertyView { edit_mode: EditMode::NoEdit, ..v },
        PropertyAction::Cancel => PropertyView { edit_mode: EditMode::NoEdit, ..v },
    }
}

/// The action keeps to `usize` arithmetic and to the bounds of `Vec::remove`.
pub open spec fn property_action_ok(v: PropertyView, a: PropertyAction) -> bool {
    &&& (a is SelectNext ==> v.selected + 1 <= usize::MAX)
    &&& (a is DeleteProperty && v.properties.len() > 0 ==> v.selected < v.properties.len())
}

impl PropertyEditorState {
    pub fn new(properties: Vec<(String, String)>) -> (r: Self)
        ensures
            r@ == (PropertyView { properties: properties.deep_view(), selected: 0, edit_mode: EditMode::NoEdit }),
    {
        PropertyEditorState { properties, selected: 0, edit_mode: EditMode::NoEdit }
    }
}

/// Apply a property editor action.
pub fn handle_property_action(state: &mut PropertyEditorState, action: PropertyAction)
    requires
        property_action_ok(old(state)@, action),
    ensures
        final(state)@ == property_step(old(state)@, action),
{
    match action {
        PropertyAction::SelectNext => {
            state.edit_mode = EditMode::NoEdit;
            let last = if state.properties.len() > 0 { state.properties.len() - 1 } else { 0 };
            state.selected = if state.selected + 1 < last { state.selected + 1 } else { last };
        },
        PropertyAction::SelectPrev => {
            state.edit_mode = EditMode::NoEdit;
            state.selected = if state.selected > 0 { state.selected - 1 } else { 0 };
        },
        PropertyAction::EditKey => {
            state.edit_mode = EditMode::Key;
        },
        PropertyAction::EditValue => {
            state.edit_mode = EditMode::Value;
        },
        PropertyAction::TypeChar(c) => {
            if state.selected < state.properties.len() {
                let mut k = state.properties[state.selected].0.clone();
                let mut val = state.properties[state.selected].1.clone();
                match state.edit_mode {
                    EditMode::Key => {
                        push_char(&mut k, c);
                        state.properties.set(state.selected, (k, val));
                    },
                    EditMode::Value => {
                        push_char(&mut val, c);
                        state.properties.set(state.selected, (k, val));
                    },
                    EditMode::NoEdit => {},
                }
                assert(state.properties.deep_view() =~= property_step(old(state)@, action).properties);
            }
        },
        PropertyAction::Backspace => {
            if state.selected < state.properties.len() {
                let mut k = state.properties[state.selected].0.clone();
                let mut val = state.properties[state.selected].1.clone();
                match state.edit_mode {
                    EditMode::Key => {
                        pop_char(&mut k);
                        state.properties.set(state.selected, (k, val));
                    },
                    EditMode::Value => {
                        pop_char(&mut val);
                        state.properties.set(state.selected, (k, val));
                    },
                    EditMode::NoEdit => {},
                }
                assert(state.properties.deep_view() =~= property_step(old(state)@, action).properties);
            }
        },
        PropertyAction::AddProperty => {
            state.properties.push((String::new(), String::new()));
            state.selected = state.properties.len() - 1;
            state.edit_mode = EditMode::Key;
            assert(state.properties.deep_view() =~= property_step(old(state)@, action).properties);
        },
        PropertyAction::DeleteProperty => {
            if state.properties.len() > 0 {
                state.properties.remove(state.selected);
                if state.selected >= state.properties.len() && state.properties.len() > 0 {
                    state.selected = state.properties.len() - 1;
                }
                state.edit_mode = EditMode::NoEdit;
                assert(state.properties.deep_view() =~= property_step(old(state)@, action).properties);
            }
        },
        PropertyAction::Confirm => {
            state.edit_mode = EditMode::NoEdit;
        },
        PropertyAction::Cancel => {
            state.edit_mode = EditMode::NoEdit;
        },
    }
}

// ── Tag editor ──────────────────────────────────────────────────────────────

/// State of the tag editor: chosen tags, the typed input and the completion popup.
pub struct TagEditorState {
    pub tags: Vec<String>,
    pub input: String,
    pub vocabulary: Vec<String>,
    pub popup_items: Vec<String>,
    pub popup_selected: usize,
    pub popup_visible: bool,
}

/// Actions of the tag editor.
#[derive(Debug, Clone, PartialEq, Eq)]
pub enum TagAction {
    TypeChar(char),
    Backspace,
    SelectNext,
    SelectPrev,
    AcceptSuggestion,
    AcceptInput,
    RemoveLast,
    Close,
}

/// The mathematical content of a tag editor.
pub struct TagEditorView {
    pub tags: Seq<Seq<char>>,
    pub input: Seq<char>,
    pub vocabulary: Seq<Seq<char>>,
    pub popup_items: Seq<Seq<char>>,
    pub popup_selected: int,
    pub popup_visible: bool,
}

impl View for TagEditorState {
    type V = TagEditorView;

    open spec fn view(&self) -> TagEditorView {
        TagEditorView {
            tags: self.tags.deep_view(),
            input: self.input@,
            vocabulary: self.vocabulary.deep_view(),
            popup_items: self.popup_items.deep_view(),
            popup_selected: self.popup_selected as int,
            popup_visible: self.popup_visible,
        }
    }
}

/// Whether a vocabulary word is offered for the lowercased query `q`.
pub open spec fn offered(word: Seq<char>, tags: Seq<Seq<char>>, q: Seq<char>) -> bool {
    contains_sub(lowercase(word), q) && !tags.contains(word)
}

/// The offered words among the first `n` of the vocabulary, in order.
pub open spec fn popup_filter(vocab: Seq<Seq<char>>, tags: Seq<Seq<char>>, q: Seq<char>, n: int) -> Seq<Seq<char>>
    decreases n,
{
    if n <= 0 || n > vocab.len() {
        seq![]
    } else {
        let prev = popup_filter(vocab, tags, q, n - 1);
        if offered(vocab[n - 1], tags, q) { prev.push(vocab[n - 1]) } else { prev }
    }
}

/// The popup recomputed for the current input.
pub open spec fn update_popup_spec(v: TagEditorView) -> TagEditorView {
    if v.input.len() == 0 {
        TagEditorView { popup_items: seq![], popup_visible: false, ..v }
    } else {
        let items = popup_filter(v.vocabulary, v.tags, lowercase(v.input), v.vocabulary.len() as int);
        TagEditorView { popup_items: items, popup_visible: items.len() > 0, popup_selected: 0, ..v }
    }
}

/// What a tag editor action does.
pub open spec fn tag_step(v: TagEditorView, a: TagAction) -> TagEditorView {
    match a {
        TagAction::TypeChar(c) => update_popup_spec(TagEditorView { input: v.input.push(c), ..v }),
        TagAction::Backspace => {
            if v.input.len() == 0 {
                TagEditorView { tags: if v.tags.len() > 0 { v.tags.drop_last() } else { v.tags }, ..v }
            } else {
                update_popup_spec(TagEditorView { input: v.input.drop_last(), ..v })
            }
        },
        TagAction::SelectNext => {
            if v.popup_items.len() > 0 {
                TagEditorView {
                    popup_selected: if v.popup_selected + 1 < v.popup_items.len() - 1 { v.popup_selected + 1 } else { v.popup_items.len() - 1 },
                    ..v
                }
            } else {
                v
            }
        },
        TagAction::SelectPrev => TagEditorView { popup_selected: if v.popup_selected > 0 { v.popup_selected - 1 } else { 0 }, ..v },
        TagAction::AcceptSuggestion => {
            if 0 <= v.popup_selected < v.popup_items.len() {
                update_popup_spec(TagEditorView { tags: v.tags.push(v.popup_items[v.popup_selected]), input: seq![], ..v })
            } else {
                v
            }
        },
        TagAction::AcceptInput => {
            let tag = trim(v.input);
            if valid_tag(tag) && !v.tags.contains(tag) {
                update_popup_spec(TagEditorView { tags: v.tags.push(tag), input: seq![], ..v })
            } else {
                v
            }
        },
        TagAction::RemoveLast => TagEditorView { tags: if v.tags.len() > 0 { v.tags.drop_last() } else { v.tags }, ..v },
        TagAction::Close => TagEditorView { popup_visible: false, ..v },
    }
}

impl TagEditorState {
    pub fn new(vocabulary: Vec<String>) -> (r: Self)
        ensures
            r@ == (TagEditorView {
                tags: seq![],
                input: seq![],
                vocabulary: vocabulary.deep_view(),
                popup_items: seq![],
                popup_selected: 0,
                popup_visible: false,
            }),
    {
        let r = TagEditorState {
            tags: Vec::new(),
            input: String::new(),
            vocabulary,
            popup_items: Vec::new(),
            popup_selected: 0,
            popup_visible: false,
        };
        assert(r.tags.deep_view() =~= Seq::<Seq<char>>::empty());
        assert(r.popup_items.deep_view() =~= Seq::<Seq<char>>::empty());
        r
    }

    /// Recompute the completion popup for the current input.
    pub fn update_popup(&mut self)
        ensures
            final(self)@ == update_popup_spec(old(self)@),
    {
        if self.input.as_str().is_empty() {
            self.popup_items = Vec::new();
            self.popup_visible = false;
            assert(self.popup_items.deep_view() =~= Seq::<Seq<char>>::empty());
            return;
        }
        let ghost v = self@;
        let q_string = to_lowercase(self.input.as_str());
        let q = chars_of(q_string.as_str());
        let mut items: Vec<String> = Vec::new();
        let mut i: usize = 0;
        while i < self.vocabulary.len()
            invariant
                v == old(self)@,
                self@ == v,
                q@ == lowercase(v.input),
                i <= v.vocabulary.len(),
                items.deep_view() == popup_filter(v.vocabulary, v.tags, q@, i as int),
            decreases v.vocabulary.len() - i,
        {
            let word = &self.vocabulary[i];
            let lw = to_lowercase(word.as_str());
            let lwc = chars_of(lw.as_str());
            assert(v.vocabulary[i as int] == word@);
            if contains_chars(lwc.as_slice(), q.as_slice()) && !strings_contain(self.tags.as_slice(), word) {
                items.push(word.clone());
                assert(items.deep_view() =~= popup_filter(v.vocabulary, v.tags, q@, i + 1));
            } else {
                assert(items.deep_view() =~= popup_filter(v.vocabulary, v.tags, q@, i + 1));
            }
            i += 1;
        }
        self.popup_visible = items.len() > 0;
        self.popup_items = items;
        self.popup_selected = 0;
    }
}

/// The trimmed form of a string (`str::trim`), as a fresh `String`.
fn trimmed(s: &str) -> (r: String)
    ensures
        r@ == trim(s@),
{
    let v = chars_of(s);
    let a = skip_ws_forward(v.as_slice(), 0, v.len());
    let b = skip_ws_backward(v.as_slice(), a, v.len());
    let mut out: Vec<char> = Vec::new();
    let mut i = a;
    while i < b
        invariant
            a <= i <= b <= v@.len(),
            out@ == v@.subrange(a as int, i as int),
        decreases b - i,
    {
        out.push(v[i]);
        assert(out@ =~= v@.subrange(a as int, i + 1));
        i += 1;
    }
    assert(v@.subrange(0, v@.len() as int) =~= v@);
    assert(v@.skip(a as int) =~= v@.subrange(a as int, v@.len() as int));
    assert(v@.skip(a as int).take(v@.len() - a - trail_ws_of(v@, a as int)) =~= v@.subrange(a as int, b as int));
    string_of(out.as_slice())
}

spec fn trail_ws_of(s: Seq<char>, a: int) -> int {
    crate::text::trail_ws(s.skip(a))
}


/// What holds of every tag editor state that actions reach from a new one:
/// the tags are distinct, the popup offers no word that is already a tag,
/// and a non-empty popup has its selection on one of its items.
pub open spec fn tag_inv(v: TagEditorView) -> bool {
    &&& forall|i: int, j: int| 0 <= i < j < v.tags.len() ==> v.tags[i] != v.tags[j]
    &&& forall|k: int| 0 <= k < v.popup_items.len() ==> !v.tags.contains(#[trigger] v.popup_items[k])
    &&& v.popup_selected >= 0
    &&& v.popup_items.len() > 0 ==> v.popup_selected < v.popup_items.len()
}

proof fn lemma_popup_filter_not_tags(vocab: Seq<Seq<char>>, tags: Seq<Seq<char>>, q: Seq<char>, n: int)
    ensures
        forall|k: int| 0 <= k < popup_filter(vocab, tags, q, n).len() ==> !tags.contains(
            #[trigger] popup_filter(vocab, tags, q, n)[k],
        ),
    decreases n,
{
    if !(n <= 0 || n > vocab.len()) {
        lemma_popup_filter_not_tags(vocab, tags, q, n - 1);
        let prev = popup_filter(vocab, tags, q, n - 1);
        if offered(vocab[n - 1], tags, q) {
            assert forall|k: int| 0 <= k < prev.push(vocab[n - 1]).len() implies !tags.contains(
                #[trigger] prev.push(vocab[n - 1])[k],
            ) by {
                if k < prev.len() {
                    assert(prev.push(vocab[n - 1])[k] == prev[k]);
                }
            }
        }
    }
}

proof fn lemma_update_popup_inv(v: TagEditorView)
    requires
        forall|i: int, j: int| 0 <= i < j < v.tags.len() ==> v.tags[i] != v.tags[j],
        v.popup_selected >= 0,
    ensures
        tag_inv(update_popup_spec(v)),
{
    if v.input.len() > 0 {
        lemma_popup_filter_not_tags(v.vocabulary, v.tags, lowercase(v.input), v.vocabulary.len() as int);
    }
}

proof fn lemma_drop_last_keeps(tags: Seq<Seq<char>>, w: Seq<char>)
    requires
        tags.len() > 0,
        !tags.contains(w),
    ensures
        !tags.drop_last().contains(w),
{
    if tags.drop_last().contains(w) {
        let i = choose|i: int| 0 <= i < tags.drop_last().len() && tags.drop_last()[i] == w;
        assert(tags[i] == w);
    }
}

/// A new tag editor satisfies the invariant, and every action keeps it: it
/// holds of every state that actions reach.
pub proof fn lemma_tag_inv_kept(v: TagEditorView, a: TagAction)
    requires
        tag_inv(v),
    ensures
        tag_inv(tag_step(v, a)),
        tag_inv(TagEditorView {
            tags: seq![],
            input: seq![],
            vocabulary: v.vocabulary,
            popup_items: seq![],
            popup_selected: 0,
            popup_visible: false,
        }),
{
    match a {
        TagAction::TypeChar(c) => {
            lemma_update_popup_inv(TagEditorView { input: v.input.push(c), ..v });
        },
        TagAction::Backspace => {
            if v.input.len() == 0 {
                if v.tags.len() > 0 {
                    let t = v.tags.drop_last();
                    assert forall|k: int| 0 <= k < v.popup_items.len() implies !t.contains(
                        #[trigger] v.popup_items[k],
                    ) by {
                        lemma_drop_last_keeps(v.tags, v.popup_items[k]);
                    }
                }
            } else {
                lemma_update_popup_inv(TagEditorView { input: v.input.drop_last(), ..v });
            }
        },
        TagAction::AcceptSuggestion => {
            if 0 <= v.popup_selected < v.popup_items.len() {
                let w = v.popup_items[v.popup_selected];
                let t = v.tags.push(w);
                assert(!v.tags.contains(w));
                assert forall|i: int, j: int| 0 <= i < j < t.len() implies t[i] != t[j] by {
                    if j == v.tags.len() {
                        assert(t[i] == v.tags[i]);
                        assert(v.tags.contains(v.tags[i]));
                    } else {
                        assert(t[i] == v.tags[i] && t[j] == v.tags[j]);
                    }
                }
                lemma_update_popup_inv(TagEditorView { tags: t, input: seq![], ..v });
            }
        },
        TagAction::AcceptInput => {
            let tag = trim(v.input);
            if valid_tag(tag) && !v.tags.contains(tag) {
                let t = v.tags.push(tag);
                assert forall|i: int, j: int| 0 <= i < j < t.len() implies t[i] != t[j] by {
                    if j == v.tags.len() {
                        assert(t[i] == v.tags[i]);
                        assert(v.tags.contains(v.tags[i]));
                    } else {
                        assert(t[i] == v.tags[i] && t[j] == v.tags[j]);
                    }
                }
                lemma_update_popup_inv(TagEditorView { tags: t, input: seq![], ..v });
            }
        },
        TagAction::RemoveLast => {
            if v.tags.len() > 0 {
                let t = v.tags.drop_last();
                assert forall|k: int| 0 <= k < v.popup_items.len() implies !t.contains(
                    #[trigger] v.popup_items[k],
                ) by {
                    lemma_drop_last_keeps(v.tags, v.popup_items[k]);
                }
            }
        },
        _ => {},
    }
}

/// The precondition of a tag editor action: `usize` arithmetic stays in range.
pub open spec fn tag_action_ok(v: TagEditorView, a: TagAction) -> bool {
    a is SelectNext && v.popup_items.len() > 0 ==> v.popup_selected + 1 <= usize::MAX
}

/// Apply a tag editor action.
pub fn handle_tag_action(state: &mut TagEditorState, action: TagAction)
    requires
        tag_action_ok(old(state)@, action),
    ensures
        final(state)@ == tag_step(old(state)@, action),
{
    match action {
        TagAction::TypeChar(c) => {
            push_char(&mut state.input, c);
            state.update_popup();
        },
        TagAction::Backspace => {
            if state.input.as_str().is_empty() {
                state.tags.pop();
                assert(state.tags.deep_view() =~= tag_step(old(state)@, action).tags);
            } else {
                pop_char(&mut state.input);
                state.update_popup();
            }
        },
        TagAction::SelectNext => {
            if state.popup_items.len() > 0 {
                let last = state.popup_items.len() - 1;
                state.popup_selected = if state.popup_selected + 1 < last { state.popup_selected + 1 } else { last };
            }
        },
        TagAction::SelectPrev => {
            state.popup_selected = if state.popup_selected > 0 { state.popup_selected - 1 } else { 0 };
        },
        TagAction::AcceptSuggestion => {
            if state.popup_selected < state.popup_items.len() {
                let tag = state.popup_items[state.popup_selected].clone();
                state.tags.push(tag);
                state.input = String::new();
                assert(state.tags.deep_view() =~= old(state)@.tags.push(old(state)@.popup_items[old(state)@.popup_selected]));
                state.update_popup();
            }
        },
        TagAction::AcceptInput => {
            let tag = trimmed(state.input.as_str());
            if is_valid_tag(tag.as_str()) && !strings_contain(state.tags.as_slice(), &tag) {
                let ghost t = tag@;
                state.tags.push(tag);
                state.input = String::new();
                assert(state.tags.deep_view() =~= old(state)@.tags.push(t));
                state.update_popup();
            }
        },
        TagAction::RemoveLast => {
            state.tags.pop();
            assert(state.tags.deep_view() =~= tag_step(old(state)@, action).tags);
        },
        TagAction::Close => {
            state.popup_visible = false;
        },
    }
}

} // verus!
