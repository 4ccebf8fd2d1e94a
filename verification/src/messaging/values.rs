//! Parse-don't-validate value objects of the messaging context.

use vstd::prelude::*;

use crate::text::{
    any_control, byte_len, byte_length, char_width, chars_of, control_char, has_control, is_ascii_letter, is_control,
    is_digit, is_graphic, lemma_byte_len_monotone, lemma_byte_len_take, letter_char, lower,
    lower_all, lower_string, string_between, width_of,
};

verus! {

/// IRC nickname specials per RFC 2812: `[ ] \ ` _ ^ { | }`.
pub open spec fn nick_special(c: char) -> bool {
    c == '[' || c == ']' || c == '\\' || c == '`' || c == '_' || c == '^' || c == '{' || c == '|'
        || c == '}'
}

fn is_special(c: char) -> (r: bool)
    ensures
        r == nick_special(c),
{
    c == '[' || c == ']' || c == '\\' || c == '`' || c == '_' || c == '^' || c == '{' || c == '|'
        || c == '}'
}

pub open spec fn nick_opens(c: char) -> bool {
    is_ascii_letter(c) || nick_special(c)
}

pub open spec fn nick_continues(c: char) -> bool {
    is_ascii_letter(c) || is_digit(c) || nick_special(c) || c == '-'
}

/// A nickname following RFC 2812 grammar, 1..=16 chars: first char a letter
/// or special, rest letters/digits/specials/`-`. Nicknames are labels, not
/// identities: collisions are legal on a serverless network and are
/// disambiguated by key fingerprint.
#[derive(Debug, PartialEq, Eq, PartialOrd, Ord, Hash)]
pub struct Nickname(String);

#[derive(Debug, Clone, Copy, PartialEq, Eq, Structural)]
pub enum NicknameError {
    Empty,
    TooLong,
    BadFirstChar,
    BadChar,
}

/// What is wrong with `raw` as a nickname, if anything. The first complaint
/// wins.
pub open spec fn nickname_fault(raw: Seq<char>) -> Option<NicknameError> {
    if raw.len() == 0 {
        Some(NicknameError::Empty)
    } else if raw.len() > 16 {
        Some(NicknameError::TooLong)
    } else if !nick_opens(raw[0]) {
        Some(NicknameError::BadFirstChar)
    } else if !(forall|i: int| 1 <= i < raw.len() ==> nick_continues(#[trigger] raw[i])) {
        Some(NicknameError::BadChar)
    } else {
        None
    }
}

impl View for Nickname {
    type V = Seq<char>;

    closed spec fn view(&self) -> Seq<char> {
        self.0@
    }
}

impl Nickname {
    pub open spec fn wf(&self) -> bool {
        nickname_fault(self@) is None
    }

    pub fn parse(raw: &str) -> (r: Result<Nickname, NicknameError>)
        ensures
            match r {
                Ok(n) => nickname_fault(raw@) is None && n@ == raw@ && n.wf(),
                Err(e) => nickname_fault(raw@) == Some(e),
            },
    {
        let chars: Vec<char> = chars_of(raw);
        if chars.len() == 0 {
            return Err(NicknameError::Empty);
        }
        if chars.len() > 16 {
            return Err(NicknameError::TooLong);
        }
        let first: char = chars[0];
        if !(letter_char(first) || is_special(first)) {
            return Err(NicknameError::BadFirstChar);
        }
        let mut i: usize = 1;
        while i < chars.len()
            invariant
                1 <= i <= chars@.len(),
                chars@ == raw@,
                forall|j: int| 1 <= j < i ==> nick_continues(#[trigger] raw@[j]),
                raw@.len() <= 16,
                nick_opens(raw@[0]),
            decreases chars@.len() - i,
        {
            let c: char = chars[i];
            if !(letter_char(c) || ('0' <= c && c <= '9') || is_special(c) || c == '-') {
                assert(!nick_continues(raw@[i as int]));
                return Err(NicknameError::BadChar);
            }
            i = i + 1;
        }
        Ok(Nickname(raw.to_owned()))
    }

    pub fn as_str(&self) -> (r: &str)
        ensures
            r@ == self@,
    {
        self.0.as_str()
    }
}

impl Nickname {
    /// Whether the two read the same.
    pub fn same(&self, other: &Nickname) -> (r: bool)
        ensures
            r == (self@ == other@),
    {
        self.0 == other.0
    }
}

impl Clone for Nickname {
    fn clone(&self) -> (r: Self)
        ensures
            r == *self,
    {
        Nickname(self.0.clone())
    }
}

/// A channel name: starts with `#`, 2..=50 bytes, ASCII printable without
/// space, comma, colon, or control characters. Stored in canonical ASCII
/// lowercase so `#Stage` and `#stage` are one channel everywhere.
#[derive(Debug, PartialEq, Eq, PartialOrd, Ord, Hash)]
pub struct ChannelName(String);

#[derive(Debug, Clone, Copy, PartialEq, Eq, Structural)]
pub enum ChannelNameError {
    MissingHash,
    BadLength,
    BadChar,
}

pub open spec fn channel_name_char(c: char) -> bool {
    is_graphic(c) && c != ',' && c != ':'
}

/// What is wrong with `raw` as a channel name, if anything. The first
/// complaint wins.
pub open spec fn channel_name_fault(raw: Seq<char>) -> Option<ChannelNameError> {
    if !(raw.len() > 0 && raw[0] == '#') {
        Some(ChannelNameError::MissingHash)
    } else if byte_len(raw) < 2 || byte_len(raw) > 50 {
        Some(ChannelNameError::BadLength)
    } else if !(forall|i: int| 1 <= i < raw.len() ==> channel_name_char(#[trigger] raw[i])) {
        Some(ChannelNameError::BadChar)
    } else {
        None
    }
}

impl View for ChannelName {
    type V = Seq<char>;

    closed spec fn view(&self) -> Seq<char> {
        self.0@
    }
}

impl ChannelName {
    pub open spec fn wf(&self) -> bool {
        &&& channel_name_fault(self@) is None
        &&& lower_all(self@) == self@
    }

    pub fn parse(raw: &str) -> (r: Result<ChannelName, ChannelNameError>)
        ensures
            match r {
                Ok(n) => channel_name_fault(raw@) is None && n@ == lower_all(raw@) && n.wf(),
                Err(e) => channel_name_fault(raw@) == Some(e),
            },
    {
        let chars: Vec<char> = chars_of(raw);
        if chars.len() == 0 || chars[0] != '#' {
            return Err(ChannelNameError::MissingHash);
        }
        let n: usize = byte_length(raw);
        if n < 2 || n > 50 {
            return Err(ChannelNameError::BadLength);
        }
        let mut i: usize = 1;
        while i < chars.len()
            invariant
                1 <= i <= chars@.len(),
                chars@ == raw@,
                raw@[0] == '#',
                2 <= byte_len(raw@) <= 50,
                forall|j: int| 1 <= j < i ==> channel_name_char(#[trigger] raw@[j]),
            decreases chars@.len() - i,
        {
            let c: char = chars[i];
            if !('!' <= c && c <= '~' && c != ',' && c != ':') {
                assert(!channel_name_char(raw@[i as int]));
                return Err(ChannelNameError::BadChar);
            }
            i = i + 1;
        }
        proof {
            law_channel_names_read_back(raw@);
        }
        Ok(ChannelName(lower_string(raw)))
    }

    pub fn as_str(&self) -> (r: &str)
        ensures
            r@ == self@,
    {
        self.0.as_str()
    }
}

/// An accepted channel name is accepted again in its canonical spelling, which
/// no further reading changes.
pub proof fn law_channel_names_read_back(raw: Seq<char>)
    requires
        channel_name_fault(raw) is None,
    ensures
        channel_name_fault(lower_all(raw)) is None,
        lower_all(lower_all(raw)) == lower_all(raw),
{
    let low = lower_all(raw);
    lemma_lower_byte_len(raw, raw.len() as int);
    assert(raw.take(raw.len() as int) =~= raw);
    assert(low.take(raw.len() as int) =~= low);
    assert forall|i: int| 1 <= i < low.len() implies channel_name_char(#[trigger] low[i]) by {
        assert(channel_name_char(raw[i]));
    }
    assert forall|i: int| 0 <= i < low.len() implies lower(low[i]) == low[i] by {}
    assert(lower_all(low) =~= low);
}

proof fn lemma_lower_byte_len(raw: Seq<char>, n: int)
    requires
        0 <= n <= raw.len(),
    ensures
        byte_len(lower_all(raw).take(n)) == byte_len(raw.take(n)),
    decreases n,
{
    if n > 0 {
        lemma_lower_byte_len(raw, n - 1);
        lemma_byte_len_take(raw, n - 1);
        lemma_byte_len_take(lower_all(raw), n - 1);
    } else {
        assert(lower_all(raw).take(0) =~= raw.take(0));
    }
}

impl ChannelName {
    /// Whether the two read the same.
    pub fn same(&self, other: &ChannelName) -> (r: bool)
        ensures
            r == (self@ == other@),
    {
        self.0 == other.0
    }
}

impl Clone for ChannelName {
    fn clone(&self) -> (r: Self)
        ensures
            r == *self,
    {
        ChannelName(self.0.clone())
    }
}

/// A chat message body: 1..=4096 bytes of UTF-8. `\n` and `\t` are the only
/// permitted control characters (no NUL, no CR: CR/LF injection into the IRC
/// gateway is impossible by construction).
#[derive(Debug, PartialEq, Eq, Hash)]
pub struct MessageBody(String);

#[derive(Debug, Clone, Copy, PartialEq, Eq, Structural)]
pub enum MessageBodyError {
    Empty,
    TooLong,
    ControlCharacter,
}

pub open spec fn body_char(c: char) -> bool {
    !is_control(c) || c == '\n' || c == '\t'
}

/// What is wrong with `raw` as a message body, if anything. The first
/// complaint wins.
pub open spec fn body_fault(raw: Seq<char>) -> Option<MessageBodyError> {
    if raw.len() == 0 {
        Some(MessageBodyError::Empty)
    } else if byte_len(raw) > 4096 {
        Some(MessageBodyError::TooLong)
    } else if !(forall|i: int| 0 <= i < raw.len() ==> body_char(#[trigger] raw[i])) {
        Some(MessageBodyError::ControlCharacter)
    } else {
        None
    }
}

impl View for MessageBody {
    type V = Seq<char>;

    closed spec fn view(&self) -> Seq<char> {
        self.0@
    }
}

/// The place of the first `\n` in `s`, or its length.
pub open spec fn first_break(s: Seq<char>) -> nat
    decreases s.len(),
{
    if s.len() == 0 || s[0] == '\n' {
        0
    } else {
        1 + first_break(s.drop_first())
    }
}

/// How many leading characters of `s` fit into `max` bytes.
pub open spec fn fitting(s: Seq<char>, max: int) -> nat
    decreases s.len(),
{
    if s.len() == 0 || char_width(s[0]) > max {
        0
    } else {
        1 + fitting(s.drop_first(), max - char_width(s[0]))
    }
}

/// A line cut greedily into pieces of at most 400 bytes each. The empty line
/// has no pieces.
pub open spec fn line_chunks(line: Seq<char>) -> Seq<Seq<char>>
    decreases line.len(),
{
    if line.len() == 0 {
        seq![]
    } else {
        let n = fitting(line, 400) as int;
        if n <= 0 || n > line.len() {
            seq![]
        } else {
            seq![line.take(n)] + line_chunks(line.skip(n))
        }
    }
}

/// The text split at every `\n`, each line cut into pieces.
pub open spec fn text_chunks(s: Seq<char>) -> Seq<Seq<char>>
    decreases s.len(),
{
    let b = first_break(s) as int;
    if b >= s.len() {
        line_chunks(s)
    } else {
        line_chunks(s.take(b)) + text_chunks(s.skip(b + 1))
    }
}

/// The text without its line breaks.
pub open spec fn unbroken(s: Seq<char>) -> Seq<char> {
    s.filter(no_break())
}

pub open spec fn no_break() -> spec_fn(char) -> bool {
    |c: char| c != '\n'
}

proof fn lemma_flatten_append(a: Seq<Seq<char>>, b: Seq<Seq<char>>)
    ensures
        (a + b).flatten() == a.flatten() + b.flatten(),
    decreases a.len(),
{
    if a.len() == 0 {
        assert(a + b =~= b);
        assert(a.flatten() + b.flatten() =~= b.flatten());
    } else {
        lemma_flatten_append(a.drop_first(), b);
        assert((a + b).drop_first() =~= a.drop_first() + b);
        assert((a + b).flatten() =~= a.flatten() + b.flatten());
    }
}

proof fn lemma_fitting_bounds(s: Seq<char>, max: int)
    ensures
        fitting(s, max) <= s.len(),
        s.len() > 0 && max >= 4 ==> fitting(s, max) >= 1,
    decreases s.len(),
{
    if s.len() == 0 || char_width(s[0]) > max {
    } else {
        lemma_fitting_bounds(s.drop_first(), max - char_width(s[0]));
    }
}

proof fn lemma_line_chunks_flatten(line: Seq<char>)
    ensures
        line_chunks(line).flatten() == line,
    decreases line.len(),
{
    let chunks = line_chunks(line);
    if line.len() == 0 {
        assert(chunks.flatten() =~= line);
    } else {
        lemma_fitting_bounds(line, 400);
        let n = fitting(line, 400) as int;
        lemma_line_chunks_flatten(line.skip(n));
        assert(chunks.first() == line.take(n));
        assert(chunks.drop_first() =~= line_chunks(line.skip(n)));
        assert(line.take(n) + line.skip(n) =~= line);
    }
}

proof fn lemma_unbroken_line(line: Seq<char>)
    requires
        forall|i: int| 0 <= i < line.len() ==> line[i] != '\n',
    ensures
        unbroken(line) == line,
    decreases line.len(),
{
    reveal(Seq::filter);
    if line.len() > 0 {
        lemma_unbroken_line(line.drop_last());
        assert(line.drop_last().push(line.last()) =~= line);
    } else {
        assert(unbroken(line) =~= line);
    }
}

proof fn lemma_break_is_dropped(s: Seq<char>)
    requires
        s.len() > 0,
        s.last() == '\n',
    ensures
        s.filter(no_break()) == s.drop_last().filter(no_break()),
{
    reveal(Seq::filter);
}

/// Cutting a text into lines loses nothing but the line breaks: the pieces, put
/// together, are the text without them.
pub proof fn law_lines_lose_only_breaks(s: Seq<char>)
    ensures
        text_chunks(s).flatten() == unbroken(s),
    decreases s.len(),
{
    lemma_first_break(s);
    let b = first_break(s) as int;
    let keeps = no_break();
    if b >= s.len() {
        lemma_line_chunks_flatten(s);
        lemma_unbroken_line(s);
    } else {
        let line = s.take(b);
        let rest = s.skip(b + 1);
        lemma_line_chunks_flatten(line);
        lemma_unbroken_line(line);
        law_lines_lose_only_breaks(rest);
        lemma_flatten_append(line_chunks(line), text_chunks(rest));
        assert(s.take(b + 1) + rest =~= s);
        Seq::filter_distributes_over_add(s.take(b + 1), rest, keeps);
        lemma_break_is_dropped(s.take(b + 1));
        assert(s.take(b + 1).drop_last() =~= line);
    }
}

proof fn lemma_first_break(s: Seq<char>)
    ensures
        first_break(s) <= s.len(),
        forall|i: int| 0 <= i < first_break(s) ==> s[i] != '\n',
        first_break(s) < s.len() ==> s[first_break(s) as int] == '\n',
    decreases s.len(),
{
    if s.len() == 0 || s[0] == '\n' {
    } else {
        let t = s.drop_first();
        lemma_first_break(t);
        assert forall|i: int| 0 <= i < first_break(s) implies s[i] != '\n' by {
            if i > 0 {
                assert(t[i - 1] == s[i]);
            }
        }
    }
}

proof fn lemma_first_break_is(s: Seq<char>, n: int)
    requires
        0 <= n <= s.len(),
        forall|i: int| 0 <= i < n ==> s[i] != '\n',
        n < s.len() ==> s[n] == '\n',
    ensures
        first_break(s) == n,
{
    lemma_first_break(s);
    let b = first_break(s) as int;
    if b < n {
        assert(s[b] != '\n');
    } else if n < b {
        assert(s[n] != '\n');
    }
}

proof fn lemma_fitting(s: Seq<char>, max: int)
    requires
        max >= 0,
    ensures
        fitting(s, max) <= s.len(),
        byte_len(s.take(fitting(s, max) as int)) <= max,
        fitting(s, max) < s.len() ==> byte_len(s.take(fitting(s, max) as int + 1)) > max,
    decreases s.len(),
{
    assert(byte_len(Seq::<char>::empty()) == 0);
    if s.len() == 0 {
        assert(s.take(0) =~= Seq::<char>::empty());
    } else if char_width(s[0]) > max {
        assert(s.take(0) =~= Seq::<char>::empty());
        lemma_byte_len_take(s, 0);
    } else {
        let t = s.drop_first();
        let m = max - char_width(s[0]);
        lemma_fitting(t, m);
        let n = fitting(t, m) as int;
        lemma_byte_len_cons(s, n);
        if n < t.len() {
            lemma_byte_len_cons(s, n + 1);
        }
    }
}

proof fn lemma_byte_len_cons(s: Seq<char>, n: int)
    requires
        s.len() > 0,
        0 <= n <= s.drop_first().len(),
    ensures
        byte_len(s.take(n + 1)) == char_width(s[0]) + byte_len(s.drop_first().take(n)),
    decreases n,
{
    if n == 0 {
        assert(s.take(0) =~= Seq::<char>::empty());
        assert(s.drop_first().take(0) =~= Seq::<char>::empty());
        lemma_byte_len_take(s, 0);
    } else {
        lemma_byte_len_cons(s, n - 1);
        lemma_byte_len_take(s, n);
        lemma_byte_len_take(s.drop_first(), n - 1);
    }
}

/// The greedy cut is the longest prefix that fits.
proof fn lemma_fitting_is(s: Seq<char>, max: int, n: int)
    requires
        max >= 0,
        0 <= n <= s.len(),
        byte_len(s.take(n)) <= max,
        n < s.len() ==> byte_len(s.take(n + 1)) > max,
    ensures
        fitting(s, max) == n,
{
    lemma_fitting(s, max);
    let f = fitting(s, max) as int;
    if f < n {
        lemma_byte_len_monotone(s, f + 1, n);
    } else if n < f {
        lemma_byte_len_monotone(s, n + 1, f);
    }
}

impl MessageBody {
    pub const MAX_BYTES: usize = 4096;

    pub open spec fn wf(&self) -> bool {
        body_fault(self@) is None
    }

    pub fn parse(raw: &str) -> (r: Result<MessageBody, MessageBodyError>)
        ensures
            match r {
                Ok(b) => body_fault(raw@) is None && b@ == raw@ && b.wf(),
                Err(e) => body_fault(raw@) == Some(e),
            },
    {
        let chars: Vec<char> = chars_of(raw);
        if chars.len() == 0 {
            return Err(MessageBodyError::Empty);
        }
        if byte_length(raw) > Self::MAX_BYTES {
            return Err(MessageBodyError::TooLong);
        }
        let mut i: usize = 0;
        while i < chars.len()
            invariant
                i <= chars@.len(),
                chars@ == raw@,
                raw@.len() > 0,
                byte_len(raw@) <= 4096,
                forall|j: int| 0 <= j < i ==> body_char(#[trigger] raw@[j]),
            decreases chars@.len() - i,
        {
            let c: char = chars[i];
            if control_char(c) && c != '\n' && c != '\t' {
                assert(!body_char(raw@[i as int]));
                return Err(MessageBodyError::ControlCharacter);
            }
            i = i + 1;
        }
        Ok(MessageBody(raw.to_owned()))
    }

    pub fn as_str(&self) -> (r: &str)
        ensures
            r@ == self@,
    {
        self.0.as_str()
    }

    /// Project the body into lines an IRC gateway may emit verbatim: split on
    /// `\n`, then chunk at character boundaries to at most
    /// [`IrcSafeLine::MAX_BYTES`] bytes. Empty lines are dropped (IRC cannot
    /// carry an empty PRIVMSG).
    pub fn irc_lines(&self) -> (r: Vec<IrcSafeLine>)
        ensures
            line_views(r@) == text_chunks(self@),
            self.wf() ==> safe_lines(r@),
    {
        let chars: Vec<char> = chars_of(self.0.as_str());
        let mut out: Vec<IrcSafeLine> = Vec::new();
        let mut start: usize = 0;
        proof {
            assert(chars@.skip(0) =~= chars@);
            assert(line_views(out@) + text_chunks(chars@) =~= text_chunks(chars@));
        }
        loop
            invariant_except_break
                start <= chars@.len(),
                chars@ == self@,
                body_chars(self@) ==> safe_lines(out@),
                line_views(out@) + text_chunks(chars@.skip(start as int)) == text_chunks(chars@),
            ensures
                body_chars(self@) ==> safe_lines(out@),
                line_views(out@) == text_chunks(self@),
            decreases chars@.len() - start,
        {
            let mut end: usize = start;
            while end < chars.len() && chars[end] != '\n'
                invariant
                    start <= end <= chars@.len(),
                    forall|i: int| start <= i < end ==> chars@[i] != '\n',
                decreases chars@.len() - end,
            {
                end = end + 1;
            }
            let ghost rest = chars@.skip(start as int);
            proof {
                lemma_first_break_is(rest, end - start);
                assert(rest.take(end - start) =~= chars@.subrange(start as int, end as int));
            }
            let ghost before = line_views(out@);
            IrcSafeLine::chunk(&chars, start, end, &mut out);
            if end >= chars.len() {
                proof {
                    assert(rest =~= chars@.subrange(start as int, end as int));
                }
                break;
            }
            proof {
                assert(rest.skip(end - start + 1) =~= chars@.skip(end + 1));
                assert(before + text_chunks(rest) =~= line_views(out@) + text_chunks(chars@.skip(end + 1)));
            }
            start = end + 1;
        }
        out
    }
}

impl MessageBody {
    /// Whether the two read the same.
    pub fn same(&self, other: &MessageBody) -> (r: bool)
        ensures
            r == (self@ == other@),
    {
        self.0 == other.0
    }
}

impl Clone for MessageBody {
    fn clone(&self) -> (r: Self)
        ensures
            r == *self,
    {
        MessageBody(self.0.clone())
    }
}

/// A single line safe to embed in an IRC message: non-empty, at most 400
/// bytes (leaving headroom inside IRC's 512-byte frame), no CR/LF/NUL.
/// Constructible only via [`MessageBody::irc_lines`].
#[derive(Debug, Clone, PartialEq, Eq)]
pub struct IrcSafeLine(String);

impl View for IrcSafeLine {
    type V = Seq<char>;

    closed spec fn view(&self) -> Seq<char> {
        self.0@
    }
}

pub open spec fn line_views(lines: Seq<IrcSafeLine>) -> Seq<Seq<char>> {
    Seq::new(lines.len(), |i: int| lines[i]@)
}

/// Every character may stand in a message body.
pub open spec fn body_chars(s: Seq<char>) -> bool {
    forall|i: int| 0 <= i < s.len() ==> body_char(#[trigger] s[i])
}

pub open spec fn safe_lines(lines: Seq<IrcSafeLine>) -> bool {
    forall|i: int| 0 <= i < lines.len() ==> (#[trigger] lines[i]).wf()
}

impl IrcSafeLine {
    pub const MAX_BYTES: usize = 400;

    /// Non-empty, at most 400 bytes, and free of the line breaks and the NUL
    /// that would end an IRC frame early.
    pub open spec fn wf(&self) -> bool {
        &&& self@.len() > 0
        &&& byte_len(self@) <= 400
        &&& forall|i: int|
            0 <= i < self@.len() ==> (#[trigger] self@[i]) != '\r' && self@[i] != '\n' && self@[i]
                != '\0'
    }

    /// Cuts the line `chars[from..to]` and adds its pieces to `out`.
    fn chunk(chars: &Vec<char>, from: usize, to: usize, out: &mut Vec<IrcSafeLine>)
        requires
            from <= to <= chars@.len(),
            forall|i: int| from <= i < to ==> chars@[i] != '\n',
        ensures
            body_chars(chars@) && safe_lines(old(out)@) ==> safe_lines(final(out)@),
            line_views(final(out)@) == line_views(old(out)@) + line_chunks(
                chars@.subrange(from as int, to as int),
            ),
    {
        let mut start: usize = from;
        while start < to
            invariant
                from <= start <= to <= chars@.len(),
                forall|i: int| from <= i < to ==> chars@[i] != '\n',
                body_chars(chars@) && safe_lines(old(out)@) ==> safe_lines(out@),
                line_views(out@) + line_chunks(chars@.subrange(start as int, to as int))
                    == line_views(old(out)@) + line_chunks(chars@.subrange(from as int, to as int)),
            decreases to - start,
        {
            let ghost rest = chars@.subrange(start as int, to as int);
            let mut cut: usize = start;
            let mut used: usize = 0;
            let mut full: bool = false;
            assert(rest.take(0) =~= Seq::<char>::empty());
            while cut < to && !full
                invariant
                    start <= cut <= to <= chars@.len(),
                    rest == chars@.subrange(start as int, to as int),
                    used == byte_len(rest.take(cut - start)),
                    used <= 400,
                    full ==> cut < to && used + char_width(chars@[cut as int]) > 400,
                decreases to - cut, if full { 0int } else { 1int },
            {
                let w: usize = width_of(chars[cut]);
                if used + w > Self::MAX_BYTES {
                    full = true;
                } else {
                    proof {
                        lemma_byte_len_take(rest, cut - start);
                    }
                    used = used + w;
                    cut = cut + 1;
                }
            }
            proof {
                if cut < to {
                    lemma_byte_len_take(rest, cut - start);
                }
                lemma_fitting_is(rest, 400, cut - start);
            }
            let piece: String = string_between(chars, start, cut);
            let ghost before = out@;
            let line = IrcSafeLine(piece);
            proof {
                assert(rest.take(cut - start) =~= chars@.subrange(start as int, cut as int));
                assert(line@ == rest.take(cut - start));
                if body_chars(chars@) {
                    assert forall|i: int| 0 <= i < line@.len() implies (#[trigger] line@[i]) != '\r' && line@[i]
                        != '\n' && line@[i] != '\0' by {
                        assert(line@[i] == chars@[start + i]);
                        assert(body_char(chars@[start + i]));
                    }
                    assert(line.wf());
                }
                assert(rest.skip(cut - start) =~= chars@.subrange(cut as int, to as int));
            }
            out.push(line);
            proof {
                assert(line_views(out@) =~= line_views(before).push(rest.take(cut - start)));
                assert(line_views(out@) + line_chunks(chars@.subrange(cut as int, to as int)) =~= line_views(
                    before,
                ) + line_chunks(rest));
            }
            start = cut;
        }
        proof {
            assert(chars@.subrange(start as int, to as int) =~= Seq::<char>::empty());
            assert(line_views(out@) + line_chunks(chars@.subrange(start as int, to as int)) =~= line_views(out@));
        }
    }

    pub fn as_str(&self) -> (r: &str)
        ensures
            r@ == self@,
    {
        self.0.as_str()
    }
}

/// A channel topic: at most 390 bytes, single line. Empty means "no topic".
#[derive(Debug, PartialEq, Eq)]
pub struct Topic(String);

#[derive(Debug, Clone, Copy, PartialEq, Eq, Structural)]
pub enum TopicError {
    TooLong,
    ControlCharacter,
}

/// What is wrong with `raw` as a topic, if anything. The first complaint wins.
pub open spec fn topic_fault(raw: Seq<char>) -> Option<TopicError> {
    if byte_len(raw) > 390 {
        Some(TopicError::TooLong)
    } else if has_control(raw) {
        Some(TopicError::ControlCharacter)
    } else {
        None
    }
}

impl View for Topic {
    type V = Seq<char>;

    closed spec fn view(&self) -> Seq<char> {
        self.0@
    }
}

impl Topic {
    pub open spec fn wf(&self) -> bool {
        topic_fault(self@) is None
    }

    pub fn parse(raw: &str) -> (r: Result<Topic, TopicError>)
        ensures
            match r {
                Ok(t) => topic_fault(raw@) is None && t@ == raw@ && t.wf(),
                Err(e) => topic_fault(raw@) == Some(e),
            },
    {
        if byte_length(raw) > 390 {
            return Err(TopicError::TooLong);
        }
        if any_control(raw) {
            return Err(TopicError::ControlCharacter);
        }
        Ok(Topic(raw.to_owned()))
    }

    pub fn none() -> (r: Topic)
        ensures
            r@ == Seq::<char>::empty(),
            r.wf(),
    {
        let r = Topic(String::new());
        assert(byte_len(Seq::<char>::empty()) == 0);
        r
    }

    pub fn is_empty(&self) -> (r: bool)
        ensures
            r == (self@.len() == 0),
    {
        self.0.as_str().is_empty()
    }

    pub fn as_str(&self) -> (r: &str)
        ensures
            r@ == self@,
    {
        self.0.as_str()
    }
}

impl Default for Topic {
    fn default() -> (r: Self)
        ensures
            r@ == Seq::<char>::empty(),
            r.wf(),
    {
        Topic::none()
    }
}

impl Topic {
    /// Whether the two read the same.
    pub fn same(&self, other: &Topic) -> (r: bool)
        ensures
            r == (self@ == other@),
    {
        self.0 == other.0
    }
}

impl Clone for Topic {
    fn clone(&self) -> (r: Self)
        ensures
            r == *self,
    {
        Topic(self.0.clone())
    }
}

/// A body can be sent if it says something, in at most 4096 bytes, without control
/// characters other than line breaks and tabs; and only then.
pub proof fn law_what_can_be_said(raw: Seq<char>)
    ensures
        body_fault(raw) is None <==> {
            &&& raw.len() > 0
            &&& byte_len(raw) <= 4096
            &&& forall|i: int|
                0 <= i < raw.len() ==> {
                    let c = #[trigger] raw[i];
                    c == '\t' || c == '\n' || !(c as u32 <= 0x1f || 0x7f <= c as u32 <= 0x9f)
                }
        },
        raw.len() == 0 ==> body_fault(raw) == Some(MessageBodyError::Empty),
        byte_len(raw) > 4096 && raw.len() > 0 ==> body_fault(raw) == Some(
            MessageBodyError::TooLong,
        ),
{
    assert forall|i: int| 0 <= i < raw.len() implies (body_char(#[trigger] raw[i]) <==> {
        let c = raw[i];
        c == '\t' || c == '\n' || !(c as u32 <= 0x1f || 0x7f <= c as u32 <= 0x9f)
    }) by {}
}

/// A topic can be set if it fits into 390 bytes and has no control character; the
/// empty one clears it.
pub proof fn law_what_can_be_a_topic(raw: Seq<char>)
    ensures
        topic_fault(raw) is None <==> byte_len(raw) <= 390 && forall|i: int|
            0 <= i < raw.len() ==> {
                let c = (#[trigger] raw[i]) as u32;
                !(c <= 0x1f || 0x7f <= c <= 0x9f)
            },
        topic_fault(Seq::<char>::empty()) is None,
{
    assert(byte_len(Seq::<char>::empty()) == 0);
    if forall|i: int|
        0 <= i < raw.len() ==> {
            let c = (#[trigger] raw[i]) as u32;
            !(c <= 0x1f || 0x7f <= c <= 0x9f)
        } {
        assert forall|i: int| 0 <= i < raw.len() implies !crate::text::is_control(#[trigger] raw[i]) by {}
    }
}

/// A nickname has one to sixteen characters: it opens with a letter or one of the
/// special characters, and goes on with those, digits and hyphens.
pub proof fn law_what_can_be_a_nickname(raw: Seq<char>)
    ensures
        nickname_fault(raw) is None <==> {
            &&& 1 <= raw.len() <= 16
            &&& forall|i: int|
                0 <= i < raw.len() ==> {
                    let c = #[trigger] raw[i];
                    ||| 'a' <= c && c <= 'z'
                    ||| 'A' <= c && c <= 'Z'
                    ||| c == '[' || c == ']' || c == '\\' || c == '`' || c == '_' || c == '^' || c
                        == '{' || c == '|' || c == '}'
                    ||| i > 0 && ('0' <= c && c <= '9' || c == '-')
                }
        },
{
    if nickname_fault(raw) is None {
        assert forall|i: int| 0 <= i < raw.len() implies {
            let c = #[trigger] raw[i];
            ||| 'a' <= c && c <= 'z'
            ||| 'A' <= c && c <= 'Z'
            ||| c == '[' || c == ']' || c == '\\' || c == '`' || c == '_' || c == '^' || c == '{' || c
                == '|' || c == '}'
            ||| i > 0 && ('0' <= c && c <= '9' || c == '-')
        } by {
            if i > 0 {
                assert(nick_continues(raw[i]));
            }
        }
    }
}

/// A channel name opens with a hash and is 2 to 50 bytes of printable characters,
/// without commas and colons behind the hash.
pub proof fn law_what_can_be_a_channel_name(raw: Seq<char>)
    ensures
        channel_name_fault(raw) is None <==> {
            &&& raw.len() > 0
            &&& raw[0] == '#'
            &&& 2 <= byte_len(raw) <= 50
            &&& forall|i: int|
                1 <= i < raw.len() ==> {
                    let c = #[trigger] raw[i];
                    '!' <= c && c <= '~' && c != ',' && c != ':'
                }
        },
{
    assert forall|i: int| 1 <= i < raw.len() implies (channel_name_char(#[trigger] raw[i]) <==> {
        let c = raw[i];
        '!' <= c && c <= '~' && c != ',' && c != ':'
    }) by {}
}

proof fn lemma_fitting_all(s: Seq<char>, max: int)
    requires
        byte_len(s) <= max,
    ensures
        fitting(s, max) == s.len(),
{
    lemma_fitting(s, max);
    let n = fitting(s, max) as int;
    if n < s.len() {
        crate::text::lemma_byte_len_monotone(s, n + 1, s.len() as int);
        assert(s.take(s.len() as int) =~= s);
    }
}

proof fn lemma_line_chunks_fit(line: Seq<char>, i: int)
    requires
        0 <= i < line_chunks(line).len(),
    ensures
        line_chunks(line)[i].len() > 0,
        byte_len(line_chunks(line)[i]) <= 400,
        forall|c: char| line_chunks(line)[i].contains(c) ==> line.contains(c),
    decreases line.len(),
{
    lemma_fitting(line, 400);
    let n = fitting(line, 400) as int;
    if i == 0 {
        assert forall|c: char| line.take(n).contains(c) implies line.contains(c) by {
            let k = choose|k: int| 0 <= k < n && line.take(n)[k] == c;
            assert(line[k] == c);
        }
    } else {
        let rest = line.skip(n);
        lemma_line_chunks_fit(rest, i - 1);
        assert(line_chunks(line)[i] == line_chunks(rest)[i - 1]);
        assert forall|c: char| rest.contains(c) implies line.contains(c) by {
            let k = choose|k: int| 0 <= k < rest.len() && rest[k] == c;
            assert(line[k + n] == c);
        }
    }
}

/// Every piece of a text can go on a line: it says something, in at most 400 bytes,
/// and breaks no line.
pub proof fn law_pieces_fit_on_a_line(s: Seq<char>, i: int)
    requires
        0 <= i < text_chunks(s).len(),
    ensures
        text_chunks(s)[i].len() > 0,
        byte_len(text_chunks(s)[i]) <= 400,
        !text_chunks(s)[i].contains('\n'),
    decreases s.len(),
{
    lemma_first_break(s);
    let b = first_break(s) as int;
    if b >= s.len() {
        lemma_line_chunks_fit(s, i);
        assert(!s.contains('\n'));
    } else {
        let line = s.take(b);
        let here = line_chunks(line);
        if i < here.len() {
            lemma_line_chunks_fit(line, i);
            assert(!line.contains('\n'));
        } else {
            law_pieces_fit_on_a_line(s.skip(b + 1), i - here.len());
        }
    }
}

/// A text of one line that fits is one piece, as it is.
pub proof fn law_a_short_line_stays_whole(s: Seq<char>)
    requires
        s.len() > 0,
        byte_len(s) <= 400,
        !s.contains('\n'),
    ensures
        text_chunks(s) == seq![s],
{
    lemma_first_break(s);
    if first_break(s) < s.len() {
        assert(s.contains(s[first_break(s) as int]));
    }
    lemma_fitting_all(s, 400);
    let n = s.len() as int;
    assert(s.take(n) =~= s);
    assert(line_chunks(s.skip(n)) =~= Seq::<Seq<char>>::empty());
    assert(line_chunks(s) =~= seq![s]);
}

/// Lines are cut one by one: what stands before a line break and what stands behind it
/// are cut as if they stood alone.
pub proof fn law_lines_are_cut_one_by_one(line: Seq<char>, rest: Seq<char>)
    requires
        !line.contains('\n'),
    ensures
        text_chunks(line.push('\n') + rest) == text_chunks(line) + text_chunks(rest),
{
    let s = line.push('\n') + rest;
    let n = line.len() as int;
    assert forall|i: int| 0 <= i < n implies s[i] != '\n' by {
        assert(line.contains(line[i]));
        assert(s[i] == line[i]);
    }
    lemma_first_break_is(s, n);
    assert forall|i: int| 0 <= i < n implies line[i] != '\n' by {
        assert(line.contains(line[i]));
    }
    lemma_first_break_is(line, n);
    assert(s.take(n) =~= line);
    assert(s.skip(n + 1) =~= rest);
}

/// Every line of a list is read, in order, as it is.
pub proof fn law_every_line_is_read(list: Seq<IrcSafeLine>, i: int)
    ensures
        line_views(list).len() == list.len(),
        0 <= i < list.len() ==> line_views(list)[i] == list[i]@,
{
}

} // verus!
