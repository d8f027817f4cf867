//! Boundary plugins: application-level containers that claim a range of lines
//! as one block.
use vstd::prelude::*;
use vstd::string::*;
use vstd::utf8::*;
use crate::bytes::{
    COLON, DASH, GREATER, LESS, SLASH, SPACE, TAB, UNDERSCORE, equal_bytes, find_byte_from,
    first_byte_from, indent, leading_indent, lemma_find_byte_from, lemma_run_len_bound, run_len,
    run_length,
};
use crate::pending::window::blank_trimmed_end;
use crate::text::{owned, str_range, str_suffix};
use crate::unicode::{
    all_whitespace, ascii_alphabetic, ascii_alphanumeric, ascii_lower, is_all_whitespace,
    is_ascii_alphabetic, is_ascii_alphanumeric, leading_whitespace, skip_whitespace,
    to_ascii_lower,
};

verus! {

#[derive(Debug, Clone, Copy, PartialEq, Eq, Structural)]
pub enum BoundaryUpdate {
    Continue,
    Close,
}

/// What a plugin does, as a state machine over lines. Its state is a
/// sequence of numbers of the plugin's own choosing.
pub struct BoundaryRule {
    /// Whether a line can start a block of the plugin.
    pub opens: spec_fn(Seq<u8>) -> bool,
    /// The state once the plugin has started a block at a line.
    pub enter: spec_fn(Seq<u8>) -> Seq<int>,
    /// The state after a line of the block, and whether the block closes at
    /// the end of that line.
    pub step: spec_fn(Seq<int>, Seq<u8>) -> (Seq<int>, bool),
    /// The state in which no block is open.
    pub idle: Seq<int>,
}

/// A boundary plugin claims that a line starts a block of its own, and then
/// keeps the stream inside that block until it says that the block is closed.
///
/// What a plugin answers is fixed by its rule and its state: two plugins
/// with the same rule that have seen the same lines answer alike.
pub trait BoundaryPlugin: Send + Sync {
    /// The rule that the plugin follows. No method changes it.
    spec fn rule(&self) -> BoundaryRule;

    /// The state that the plugin is in.
    spec fn state(&self) -> Seq<int>;

    /// Whether `line` can start a block of this plugin. The state plays no part.
    fn matches_start(&self, line: &str) -> (r: bool)
        ensures
            r == (self.rule().opens)(line.spec_bytes()),
    ;

    /// Called once when a block of this plugin starts at `line`.
    fn start(&mut self, line: &str)
        ensures
            final(self).rule() == old(self).rule(),
            final(self).state() == (old(self).rule().enter)(line.spec_bytes()),
    ;

    /// Called for each line of the block, the starting line included.
    /// `Close` closes the block at the end of this line.
    fn update(&mut self, line: &str) -> (r: BoundaryUpdate)
        ensures
            final(self).rule() == old(self).rule(),
            final(self).state() == (old(self).rule().step)(
                old(self).state(),
                line.spec_bytes(),
            ).0,
            (r == BoundaryUpdate::Close) == (old(self).rule().step)(
                old(self).state(),
                line.spec_bytes(),
            ).1,
    ;

    /// Back to the state in which no block is open.
    fn reset(&mut self)
        ensures
            final(self).rule() == old(self).rule(),
            final(self).state() == old(self).rule().idle,
    ;
}

/// The line without its leading spaces, of which at most three are taken off.
pub fn strip_up_to_three_leading_spaces(line: &str) -> (r: &str)
    ensures
        r.spec_bytes() == line.spec_bytes().subrange(
            indent(line.spec_bytes()),
            line.spec_bytes().len() as int,
        ),
{
    let bytes = line.as_bytes();
    let i = leading_indent(bytes);
    proof {
        lemma_run_len_bound(bytes@, 0, SPACE);
    }
    str_suffix(line, i)
}

/// How many copies of `ch` the line starts with, after at most three spaces.
pub open spec fn fence_run(line: Seq<u8>, ch: u8) -> nat {
    run_len(line, indent(line), ch)
}

/// The line closes a fence that was opened with a run of `opened`: after at
/// most three spaces and without the spaces and tabs at its end, it starts
/// with `opened` or more copies of `ch`, and, where the end must stand alone,
/// holds nothing but whitespace after them.
pub open spec fn fence_end_line(line: Seq<u8>, ch: u8, opened: int, standalone: bool) -> bool {
    let i = indent(line);
    let s = line.subrange(i, blank_trimmed_end(line, i, line.len() as int));
    let n = run_len(s, 0, ch);
    n >= opened && (!standalone || all_whitespace(
        decode_utf8(s.subrange(n as int, s.len() as int)),
    ))
}

/// The state of a fence plugin: empty where no block is open, else the
/// length of the opening run and 1 until the opening line has been seen, 0 after.
pub open spec fn fence_state(opened_len: Option<usize>, just_started: bool) -> Seq<int> {
    match opened_len {
        Some(n) => seq![n as int, if just_started { 1int } else { 0int }],
        None => Seq::empty(),
    }
}

/// The line starts a fence of `ch`: `ch` is an ASCII character, and the
/// line starts with `min_len` or more of it, after at most three spaces.
pub open spec fn fence_start_line(line: Seq<u8>, ch: char, min_len: usize) -> bool {
    ch as u32 <= 0x7f && fence_run(line, ch as u8) >= min_len
}

/// The rule of a fence plugin. A fence character outside ASCII starts and
/// ends nothing.
pub open spec fn fence_rule(ch: char, min_len: usize, standalone: bool) -> BoundaryRule {
    BoundaryRule {
        opens: |line: Seq<u8>| fence_start_line(line, ch, min_len),
        enter: |line: Seq<u8>|
            if fence_start_line(line, ch, min_len) {
                seq![fence_run(line, ch as u8) as int, 1int]
            } else {
                Seq::empty()
            },
        step: |state: Seq<int>, line: Seq<u8>|
            if state.len() != 2 {
                (state, false)
            } else if state[1] == 1 {
                (seq![state[0], 0int], false)
            } else if ch as u32 <= 0x7f && fence_end_line(line, ch as u8, state[0], standalone) {
                (Seq::empty(), true)
            } else {
                (state, false)
            },
        idle: Seq::empty(),
    }
}

/// A container between fence lines, such as
///
/// ```text
/// :::warning
/// content...
/// :::
/// ```
///
/// It starts at a line that begins, after at most three spaces, with
/// `min_len` or more copies of `fence_char`. It ends at a line that begins
/// with at least as many as the starting line had and, where
/// `require_standalone_end` is set, holds nothing else but whitespace.
#[derive(Debug, Clone)]
pub struct FenceBoundaryPlugin {
    pub fence_char: char,
    pub min_len: usize,
    pub require_standalone_end: bool,
    /// The length of the run that opened the block, while one is open.
    pub opened_len: Option<usize>,
    /// Set from the start of a block until its opening line has been seen.
    pub just_started: bool,
}

impl FenceBoundaryPlugin {
    /// The byte that fence lines are made of.
    pub open spec fn fence_byte(&self) -> u8 {
        self.fence_char as u8
    }

    /// A plugin for fences of `min_len` or more of `fence_char`, whose end
    /// must stand alone on its line.
    pub fn new(fence_char: char, min_len: usize) -> (r: Self)
        ensures
            r.fence_char == fence_char,
            r.min_len == min_len,
            r.require_standalone_end,
            r.opened_len is None,
            !r.just_started,
    {
        Self {
            fence_char,
            min_len,
            require_standalone_end: true,
            opened_len: None,
            just_started: false,
        }
    }

    /// The plugin for directives between lines of three or more colons.
    pub fn triple_colon() -> (r: Self)
        ensures
            r.fence_char == ':',
            r.min_len == 3,
            r.require_standalone_end,
            r.opened_len is None,
            !r.just_started,
    {
        Self::new(':', 3)
    }

    /// The fence character as a byte.
    fn byte(&self) -> (r: u8)
        requires
            self.fence_char as u32 <= 0x7f,
        ensures
            r == self.fence_byte(),
    {
        let v: u32 = self.fence_char as u32;
        v as u8
    }

    /// Whether the fence character is an ASCII character.
    fn is_usable(&self) -> (r: bool)
        ensures
            r == (self.fence_char as u32 <= 0x7f),
    {
        let v: u32 = self.fence_char as u32;
        v <= 0x7f
    }

    /// How many fence characters the line starts with, after at most three
    /// spaces.
    pub fn fence_len_at_start(&self, line: &str) -> (r: usize)
        requires
            self.fence_char as u32 <= 0x7f,
        ensures
            r as nat == fence_run(line.spec_bytes(), self.fence_byte()),
    {
        let bytes = line.as_bytes();
        let i = leading_indent(bytes);
        run_length(bytes, i, self.byte())
    }

    /// Whether the line closes a fence that was opened with a run of
    /// `opened_len`.
    pub fn is_end_line(&self, line: &str, opened_len: usize) -> (r: bool)
        requires
            self.fence_char as u32 <= 0x7f,
        ensures
            r == fence_end_line(
                line.spec_bytes(),
                self.fence_byte(),
                opened_len as int,
                self.require_standalone_end,
            ),
    {
        let bytes = line.as_bytes();
        let n = bytes.len();
        let i = leading_indent(bytes);
        let mut end: usize = n;
        while end > i && (bytes[end - 1] == SPACE || bytes[end - 1] == TAB)
            invariant
                n == bytes@.len(),
                i <= end <= n,
                end == n || bytes@[end as int] < 0x80,
                blank_trimmed_end(bytes@, i as int, n as int) == blank_trimmed_end(
                    bytes@,
                    i as int,
                    end as int,
                ),
            decreases end,
        {
            end -= 1;
        }
        let s = vstd::slice::slice_subrange(bytes, i, end);
        let len = run_length(s, 0, self.byte());
        if len < opened_len {
            return false;
        }
        if !self.require_standalone_end {
            return true;
        }
        proof {
            lemma_run_len_bound(bytes@, 0, SPACE);
            lemma_run_len_bound(s@, 0, self.fence_byte());
            assert(i > 0 ==> bytes@[i - 1] == SPACE);
            assert(s@.subrange(len as int, s@.len() as int) =~= bytes@.subrange(
                i + len,
                end as int,
            ));
            assert(len > 0 ==> bytes@[i + len - 1] == s@[len - 1]);
        }
        let rest = str_range(line, i + len, end);
        proof {
            encode_utf8_decode_utf8(rest@);
        }
        is_all_whitespace(rest)
    }
}

impl Default for FenceBoundaryPlugin {
    fn default() -> (r: Self)
        ensures
            r.fence_char == ':',
            r.min_len == 3,
            r.require_standalone_end,
            r.opened_len is None,
            !r.just_started,
    {
        Self::triple_colon()
    }
}

impl BoundaryPlugin for FenceBoundaryPlugin {
    open spec fn rule(&self) -> BoundaryRule {
        fence_rule(self.fence_char, self.min_len, self.require_standalone_end)
    }

    open spec fn state(&self) -> Seq<int> {
        fence_state(self.opened_len, self.just_started)
    }

    fn matches_start(&self, line: &str) -> (r: bool) {
        self.is_usable() && self.fence_len_at_start(line) >= self.min_len
    }

    fn start(&mut self, line: &str)
        ensures
            final(self).fence_char == old(self).fence_char,
            final(self).min_len == old(self).min_len,
            final(self).require_standalone_end == old(self).require_standalone_end,
    {
        if self.is_usable() {
            let len = self.fence_len_at_start(line);
            if len >= self.min_len {
                self.opened_len = Some(len);
                self.just_started = true;
                return;
            }
        }
        self.opened_len = None;
        self.just_started = false;
    }

    fn update(&mut self, line: &str) -> (r: BoundaryUpdate)
        ensures
            final(self).fence_char == old(self).fence_char,
            final(self).min_len == old(self).min_len,
            final(self).require_standalone_end == old(self).require_standalone_end,
    {
        let opened = match self.opened_len {
            Some(n) => n,
            None => {
                return BoundaryUpdate::Continue;
            },
        };
        if self.just_started {
            self.just_started = false;
            assert(self.state() =~= seq![opened as int, 0int]);
            return BoundaryUpdate::Continue;
        }
        if self.is_usable() && self.is_end_line(line, opened) {
            self.opened_len = None;
            return BoundaryUpdate::Close;
        }
        BoundaryUpdate::Continue
    }

    fn reset(&mut self)
        ensures
            final(self).fence_char == old(self).fence_char,
            final(self).min_len == old(self).min_len,
            final(self).require_standalone_end == old(self).require_standalone_end,
    {
        self.opened_len = None;
        self.just_started = false;
    }
}

/// A character of a tag name after its first: an ASCII letter or digit, or
/// one of `-`, `_` and `:`.
pub open spec fn tag_name_char(b: u8) -> bool {
    ascii_alphanumeric(b) || b == DASH || b == UNDERSCORE || b == COLON
}

/// How many characters of a tag name stand in a row from position `i`.
pub open spec fn name_run(s: Seq<u8>, i: int) -> nat
    decreases s.len() - i,
{
    if i < 0 || i >= s.len() || !tag_name_char(s[i]) {
        0
    } else {
        1 + name_run(s, i + 1)
    }
}

/// The name as tags are compared: in lower case where case does not count.
pub open spec fn normalized(name: Seq<u8>, case_insensitive: bool) -> Seq<u8> {
    if case_insensitive {
        Seq::new(name.len(), |i: int| ascii_lower(name[i]))
    } else {
        name
    }
}

/// Where the tag name that starts at `from` ends: it starts with an ASCII
/// letter, which name characters follow, and equals `tag` as tags are
/// compared. `None` where no such name stands there.
pub open spec fn tag_name_end(s: Seq<u8>, from: int, tag: Seq<u8>, case_insensitive: bool)
    -> Option<int> {
    if 0 <= from < s.len() && ascii_alphabetic(s[from]) {
        let end = from + 1 + name_run(s, from + 1);
        if normalized(s.subrange(from, end), case_insensitive) == normalized(
            tag,
            case_insensitive,
        ) {
            Some(end)
        } else {
            None
        }
    } else {
        None
    }
}

/// The line opens the tag: the first of it that is not whitespace is `<`
/// and the tag's name, and `>` follows on the same line; between the name
/// and the first `>` stands nothing but whitespace, unless attributes are
/// allowed.
pub open spec fn tag_opening_line(
    line: Seq<u8>,
    tag: Seq<u8>,
    case_insensitive: bool,
    allow_attributes: bool,
) -> bool {
    let s = line.subrange(skip_whitespace(line, 0), line.len() as int);
    let gt = find_byte_from(s, GREATER, 0);
    s.len() > 0 && s[0] == LESS && gt < s.len() && match tag_name_end(
        s.subrange(0, gt),
        1,
        tag,
        case_insensitive,
    ) {
        Some(end) => allow_attributes || all_whitespace(decode_utf8(s.subrange(end, gt))),
        None => false,
    }
}

/// The line closes the tag: after at most three spaces it holds `</` and the
/// tag's name; then, where the end must stand alone, `>` with nothing but
/// whitespace around it, and otherwise `>` anywhere.
pub open spec fn tag_closing_line(
    line: Seq<u8>,
    tag: Seq<u8>,
    case_insensitive: bool,
    standalone: bool,
) -> bool {
    let s = line.subrange(indent(line), line.len() as int);
    s.len() >= 2 && s[0] == LESS && s[1] == SLASH && match tag_name_end(
        s,
        2,
        tag,
        case_insensitive,
    ) {
        Some(end) => {
            let gt = find_byte_from(s, GREATER, end);
            gt < s.len() && (!standalone || (all_whitespace(decode_utf8(s.subrange(end, gt)))
                && all_whitespace(decode_utf8(s.subrange(gt + 1, s.len() as int)))))
        },
        None => false,
    }
}

/// The state of a tag plugin: one number where a block is open, none where not.
pub open spec fn tag_state(active: bool) -> Seq<int> {
    if active {
        seq![1int]
    } else {
        Seq::empty()
    }
}

/// The rule of a tag plugin.
pub open spec fn tag_rule(
    tag: Seq<u8>,
    case_insensitive: bool,
    allow_attributes: bool,
    standalone: bool,
) -> BoundaryRule {
    BoundaryRule {
        opens: |line: Seq<u8>| tag_opening_line(line, tag, case_insensitive, allow_attributes),
        enter: |line: Seq<u8>| seq![1int],
        step: |state: Seq<int>, line: Seq<u8>|
            if state.len() == 0 {
                (state, false)
            } else if tag_closing_line(line, tag, case_insensitive, standalone) {
                (Seq::empty(), true)
            } else {
                (seq![1int], false)
            },
        idle: Seq::empty(),
    }
}

/// A container between a pair of tags, such as
///
/// ```text
/// <thinking>
/// ...
/// </thinking>
/// ```
///
/// The opening tag must be the first of its line that is not whitespace,
/// and be complete on the line. The closing tag must start its line, after
/// at most three spaces, and, unless `require_standalone_end` is off, stand
/// alone on it.
#[derive(Debug, Clone)]
pub struct TagBoundaryPlugin {
    pub tag: String,
    pub case_insensitive: bool,
    pub allow_attributes: bool,
    pub require_standalone_end: bool,
    /// Set while a block is open.
    pub active: bool,
}

impl TagBoundaryPlugin {
    /// A plugin for the tag of this name: case does not count, attributes
    /// are allowed, and the closing tag must stand alone on its line.
    pub fn new(tag: &str) -> (r: Self)
        ensures
            r.tag@ == tag@,
            r.case_insensitive,
            r.allow_attributes,
            r.require_standalone_end,
            !r.active,
    {
        Self {
            tag: owned(tag),
            case_insensitive: true,
            allow_attributes: true,
            require_standalone_end: true,
            active: false,
        }
    }

    /// The plugin for `<thinking>` containers.
    pub fn thinking() -> (r: Self)
        ensures
            r.tag@ == "thinking"@,
            r.case_insensitive,
            r.allow_attributes,
            r.require_standalone_end,
            !r.active,
    {
        Self::new("thinking")
    }

    /// Whether the byte can stand in a tag name after its first character.
    pub fn is_tag_name_char(b: u8) -> (r: bool)
        ensures
            r == tag_name_char(b),
    {
        is_ascii_alphanumeric(b) || b == DASH || b == UNDERSCORE || b == COLON
    }

    /// The byte as tags are compared.
    fn norm_byte(&self, b: u8) -> (r: u8)
        ensures
            r == (if self.case_insensitive {
                ascii_lower(b)
            } else {
                b
            }),
    {
        if self.case_insensitive {
            to_ascii_lower(b)
        } else {
            b
        }
    }

    /// The name as tags are compared.
    pub fn norm_tag(&self, tag: &[u8]) -> (r: Vec<u8>)
        ensures
            r@ == normalized(tag@, self.case_insensitive),
    {
        let mut out: Vec<u8> = Vec::new();
        let mut i: usize = 0;
        while i < tag.len()
            invariant
                i <= tag@.len(),
                out@.len() == i,
                forall|j: int|
                    0 <= j < i ==> out@[j] == (if self.case_insensitive {
                        ascii_lower(tag@[j])
                    } else {
                        tag@[j]
                    }),
            decreases tag@.len() - i,
        {
            out.push(self.norm_byte(tag[i]));
            i += 1;
        }
        assert(out@ =~= normalized(tag@, self.case_insensitive));
        out
    }

    /// Where the name of this plugin's tag ends, if it starts at `from`.
    fn name_end(&self, s: &[u8], from: usize) -> (r: Option<usize>)
        ensures
            match r {
                Some(end) => tag_name_end(
                    s@,
                    from as int,
                    encode_utf8(self.tag@),
                    self.case_insensitive,
                ) == Some(end as int) && from < end <= s@.len() && s@[end - 1] < 0x80,
                None => tag_name_end(
                    s@,
                    from as int,
                    encode_utf8(self.tag@),
                    self.case_insensitive,
                ) is None,
            },
    {
        let n = s.len();
        if from >= n || !is_ascii_alphabetic(s[from]) {
            return None;
        }
        let mut end: usize = from + 1;
        while end < n && Self::is_tag_name_char(s[end])
            invariant
                n == s@.len(),
                from < end <= n,
                s@[end - 1] < 0x80,
                name_run(s@, from + 1) == (end - from - 1) + name_run(s@, end as int),
            decreases n - end,
        {
            end += 1;
        }
        let name = self.norm_tag(vstd::slice::slice_subrange(s, from, end));
        let want = self.norm_tag(self.tag.as_str().as_bytes());
        if equal_bytes(name.as_slice(), want.as_slice()) {
            Some(end)
        } else {
            None
        }
    }

    /// Whether the line opens the tag.
    pub fn matches_opening(&self, line: &str) -> (r: bool)
        ensures
            r == tag_opening_line(
                line.spec_bytes(),
                encode_utf8(self.tag@),
                self.case_insensitive,
                self.allow_attributes,
            ),
    {
        let lead = leading_whitespace(line);
        let (_blank, stripped) = line.split_at(lead);
        let s = stripped.as_bytes();
        let n = s.len();
        if n == 0 || s[0] != LESS {
            return false;
        }
        let gt = first_byte_from(s, GREATER, 0);
        proof {
            lemma_find_byte_from(s@, GREATER, 0);
        }
        if gt >= n {
            return false;
        }
        let inside = vstd::slice::slice_subrange(s, 0, gt);
        let end = match self.name_end(inside, 1) {
            Some(end) => end,
            None => {
                return false;
            },
        };
        if self.allow_attributes {
            return true;
        }
        proof {
            assert(inside@[end - 1] == s@[end - 1]);
        }
        let rest = str_range(stripped, end, gt);
        proof {
            encode_utf8_decode_utf8(rest@);
        }
        is_all_whitespace(rest)
    }

    /// Whether the line closes the tag.
    pub fn matches_closing(&self, line: &str) -> (r: bool)
        ensures
            r == tag_closing_line(
                line.spec_bytes(),
                encode_utf8(self.tag@),
                self.case_insensitive,
                self.require_standalone_end,
            ),
    {
        let stripped = strip_up_to_three_leading_spaces(line);
        let s = stripped.as_bytes();
        let n = s.len();
        if n < 2 || s[0] != LESS || s[1] != SLASH {
            return false;
        }
        let end = match self.name_end(s, 2) {
            Some(end) => end,
            None => {
                return false;
            },
        };
        let gt = first_byte_from(s, GREATER, end);
        proof {
            lemma_find_byte_from(s@, GREATER, end as int);
        }
        if gt >= n {
            return false;
        }
        if !self.require_standalone_end {
            return true;
        }
        let before = str_range(stripped, end, gt);
        let after = str_suffix(stripped, gt + 1);
        proof {
            encode_utf8_decode_utf8(before@);
            encode_utf8_decode_utf8(after@);
        }
        is_all_whitespace(before) && is_all_whitespace(after)
    }
}

impl BoundaryPlugin for TagBoundaryPlugin {
    open spec fn rule(&self) -> BoundaryRule {
        tag_rule(
            encode_utf8(self.tag@),
            self.case_insensitive,
            self.allow_attributes,
            self.require_standalone_end,
        )
    }

    open spec fn state(&self) -> Seq<int> {
        tag_state(self.active)
    }

    fn matches_start(&self, line: &str) -> (r: bool) {
        self.matches_opening(line)
    }

    fn start(&mut self, _line: &str)
        ensures
            final(self).tag == old(self).tag,
            final(self).case_insensitive == old(self).case_insensitive,
            final(self).allow_attributes == old(self).allow_attributes,
            final(self).require_standalone_end == old(self).require_standalone_end,
    {
        self.active = true;
    }

    fn update(&mut self, line: &str) -> (r: BoundaryUpdate)
        ensures
            final(self).tag == old(self).tag,
            final(self).case_insensitive == old(self).case_insensitive,
            final(self).allow_attributes == old(self).allow_attributes,
            final(self).require_standalone_end == old(self).require_standalone_end,
    {
        if !self.active {
            return BoundaryUpdate::Continue;
        }
        if self.matches_closing(line) {
            self.active = false;
            return BoundaryUpdate::Close;
        }
        BoundaryUpdate::Continue
    }

    fn reset(&mut self)
        ensures
            final(self).tag == old(self).tag,
            final(self).case_insensitive == old(self).case_insensitive,
            final(self).allow_attributes == old(self).allow_attributes,
            final(self).require_standalone_end == old(self).require_standalone_end,
    {
        self.active = false;
    }
}

} // verus!
