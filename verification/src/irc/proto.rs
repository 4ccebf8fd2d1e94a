//! Minimal RFC 1459/2812 message framing: `[@tags] [:prefix] COMMAND params
//! [:trailing]`.

use vstd::prelude::*;

use crate::text::{
    chars_of, is_space, padded, padded_of, space_char, string_between, trim_start, upper_all,
    upper_char,
};

use super::calendar::{date_at, date_of};

verus! {

/// A parsed inbound IRC message (tags and prefix are accepted and ignored).
#[derive(Debug, Clone, PartialEq, Eq)]
pub struct IrcMessage {
    pub command: String,
    pub params: Vec<String>,
}

/// What a list of strings says.
pub open spec fn texts(s: Seq<String>) -> Seq<Seq<char>> {
    Seq::new(s.len(), |i: int| s[i]@)
}

/// What a message says.
pub struct IrcMessageView {
    pub command: Seq<char>,
    pub params: Seq<Seq<char>>,
}

impl View for IrcMessage {
    type V = IrcMessageView;

    open spec fn view(&self) -> IrcMessageView {
        IrcMessageView { command: self.command@, params: texts(self.params@) }
    }
}

/// A line without the carriage returns and line feeds at its end.
pub open spec fn without_breaks(s: Seq<char>) -> Seq<char>
    decreases s.len(),
{
    if s.len() > 0 && (s.last() == '\r' || s.last() == '\n') {
        without_breaks(s.drop_last())
    } else {
        s
    }
}

/// Where the first space stands: at the end, if there is none.
pub open spec fn first_space(s: Seq<char>) -> int
    decreases s.len(),
{
    if s.len() == 0 || s[0] == ' ' {
        0
    } else {
        1 + first_space(s.drop_first())
    }
}

/// What follows the first space, if there is one.
pub open spec fn after_space(s: Seq<char>) -> Option<Seq<char>> {
    if first_space(s) < s.len() {
        Some(s.skip(first_space(s) + 1))
    } else {
        None
    }
}

/// What precedes the first space.
pub open spec fn word(s: Seq<char>) -> Seq<char> {
    s.take(first_space(s))
}

/// `s` without the word that `mark` opens, if it does. A marked word needs a
/// space after it.
pub open spec fn past_marked(s: Seq<char>, mark: char) -> Option<Seq<char>> {
    if s.len() > 0 && s[0] == mark {
        after_space(s.skip(1))
    } else {
        Some(s)
    }
}

/// The parameters, separated by white space; one that `:` opens runs to the
/// end.
pub open spec fn params_of(p: Seq<char>) -> Seq<Seq<char>>
    decreases p.len(),
{
    let q = trim_start(p);
    if q.len() == 0 {
        seq![]
    } else if q[0] == ':' {
        seq![q.skip(1)]
    } else {
        match after_space(q) {
            None => seq![q],
            Some(next) => {
                proof {
                    lemma_trim_start_len(p);
                    lemma_first_space(q);
                }
                seq![word(q)] + params_of(next)
            },
        }
    }
}

/// What a line says: its command in capitals and its parameters. An empty
/// line says nothing, and neither does one that ends before its command.
pub open spec fn parsed(line: Seq<char>) -> Option<IrcMessageView> {
    let s = without_breaks(line);
    if s.len() == 0 {
        None
    } else {
        match past_marked(s, '@') {
            None => None,
            Some(t) => match past_marked(t, ':') {
                None => None,
                Some(u) => {
                    let body = trim_start(u);
                    if word(body).len() == 0 {
                        None
                    } else {
                        Some(
                            IrcMessageView {
                                command: upper_all(word(body)),
                                params: match after_space(body) {
                                    Some(p) => params_of(p),
                                    None => seq![],
                                },
                            },
                        )
                    }
                },
            },
        }
    }
}

pub proof fn lemma_trim_start_len(s: Seq<char>)
    ensures
        trim_start(s).len() <= s.len(),
    decreases s.len(),
{
    if s.len() > 0 && is_space(s[0]) {
        lemma_trim_start_len(s.drop_first());
    }
}

pub proof fn lemma_first_space(s: Seq<char>)
    ensures
        0 <= first_space(s) <= s.len(),
    decreases s.len(),
{
    if s.len() > 0 && s[0] != ' ' {
        lemma_first_space(s.drop_first());
    }
}

/// The position of the first character from `from` on that is no white space.
fn skip_white(chars: &Vec<char>, from: usize) -> (r: usize)
    requires
        from <= chars@.len(),
    ensures
        from <= r <= chars@.len(),
        chars@.skip(r as int) == trim_start(chars@.skip(from as int)),
{
    let mut i: usize = from;
    while i < chars.len() && space_char(chars[i])
        invariant
            from <= i <= chars@.len(),
            trim_start(chars@.skip(i as int)) == trim_start(chars@.skip(from as int)),
        decreases chars@.len() - i,
    {
        assert(chars@.skip(i as int).drop_first() =~= chars@.skip(i + 1));
        i = i + 1;
    }
    i
}

/// The position of the first space from `from` on.
fn find_space(chars: &Vec<char>, from: usize) -> (r: usize)
    requires
        from <= chars@.len(),
    ensures
        from <= r <= chars@.len(),
        r - from == first_space(chars@.skip(from as int)),
        chars@.subrange(from as int, r as int) == word(chars@.skip(from as int)),
        match after_space(chars@.skip(from as int)) {
            Some(next) => r < chars@.len() && next == chars@.skip(r + 1),
            None => r == chars@.len(),
        },
{
    let mut i: usize = from;
    while i < chars.len() && chars[i] != ' '
        invariant
            from <= i <= chars@.len(),
            first_space(chars@.skip(from as int)) == i - from + first_space(chars@.skip(i as int)),
        decreases chars@.len() - i,
    {
        assert(chars@.skip(i as int).drop_first() =~= chars@.skip(i + 1));
        i = i + 1;
    }
    assert(chars@.subrange(from as int, i as int) =~= word(chars@.skip(from as int)));
    if i < chars.len() {
        assert(chars@.skip(from as int).skip(i - from + 1) =~= chars@.skip(i + 1));
    }
    i
}

fn read_params(chars: &Vec<char>, from: usize) -> (r: Vec<String>)
    requires
        from <= chars@.len(),
    ensures
        texts(r@) == params_of(chars@.skip(from as int)),
{
    let mut params: Vec<String> = Vec::new();
    let mut p: usize = from;
    let ghost all = params_of(chars@.skip(from as int));
    assert(texts(params@) + all =~= all);
    loop
        invariant_except_break
            p <= chars@.len(),
            texts(params@) + params_of(chars@.skip(p as int)) == all,
        ensures
            texts(params@) == all,
        decreases chars@.len() - p,
    {
        let q: usize = skip_white(chars, p);
        let ghost before = texts(params@);
        if q == chars.len() {
            assert(before + Seq::<Seq<char>>::empty() =~= before);
            break;
        }
        if chars[q] == ':' {
            let trailing: String = string_between(chars, q + 1, chars.len());
            assert(trailing@ =~= chars@.skip(q as int).skip(1));
            params.push(trailing);
            assert(texts(params@) =~= before + seq![trailing@]);
            break;
        }
        let e: usize = find_space(chars, q);
        let param: String = string_between(chars, q, e);
        params.push(param);
        assert(texts(params@) =~= before + seq![param@]);
        if e == chars.len() {
            assert(param@ =~= chars@.skip(q as int));
            break;
        }
        assert(before + (seq![param@] + params_of(chars@.skip(e + 1))) =~= before + seq![param@]
            + params_of(chars@.skip(e + 1)));
        p = e + 1;
    }
    params
}

/// The characters from `from` up to `to`, in capitals.
fn upper_between(chars: &Vec<char>, from: usize, to: usize) -> (r: String)
    requires
        from <= to <= chars@.len(),
    ensures
        r@ == upper_all(chars@.subrange(from as int, to as int)),
{
    let ghost name = chars@.subrange(from as int, to as int);
    let mut r = String::new();
    let mut i: usize = from;
    while i < to
        invariant
            from <= i <= to <= chars@.len(),
            name == chars@.subrange(from as int, to as int),
            r@ == upper_all(name).take(i - from),
        decreases to - i,
    {
        r.push(upper_char(chars[i]));
        assert(name[i - from] == chars@[i as int]);
        assert(upper_all(name).take(i + 1 - from) =~= upper_all(name).take(i - from).push(
            upper_all(name)[i - from],
        ));
        i = i + 1;
    }
    assert(upper_all(name).take(to - from) =~= upper_all(name));
    r
}

/// Where the word that `mark` opens at `at` ends, if it does: after its space.
fn skip_marked(chars: &Vec<char>, at: usize, mark: char) -> (r: Option<usize>)
    requires
        at <= chars@.len(),
    ensures
        match r {
            Some(next) => at <= next <= chars@.len() && past_marked(chars@.skip(at as int), mark)
                == Some(chars@.skip(next as int)),
            None => past_marked(chars@.skip(at as int), mark) is None,
        },
{
    if at < chars.len() && chars[at] == mark {
        assert(chars@.skip(at as int).skip(1) =~= chars@.skip(at + 1));
        let e: usize = find_space(chars, at + 1);
        if e == chars.len() {
            None
        } else {
            Some(e + 1)
        }
    } else {
        Some(at)
    }
}

/// Parse one IRC line. Returns `None` for empty lines.
pub fn parse_line(line: &str) -> (r: Option<IrcMessage>)
    ensures
        match r {
            Some(m) => parsed(line@) == Some(m@),
            None => parsed(line@) is None,
        },
{
    let mut chars: Vec<char> = chars_of(line);
    while chars.len() > 0 && (chars[chars.len() - 1] == '\r' || chars[chars.len() - 1] == '\n')
        invariant
            without_breaks(chars@) == without_breaks(line@),
        decreases chars@.len(),
    {
        let ghost before = chars@;
        chars.pop();
        assert(chars@ =~= before.drop_last());
    }
    if chars.len() == 0 {
        return None;
    }
    assert(chars@.skip(0) =~= chars@);
    let untagged: usize = match skip_marked(&chars, 0, '@') {
        Some(at) => at,
        None => {
            return None;
        },
    };
    let at: usize = match skip_marked(&chars, untagged, ':') {
        Some(at) => at,
        None => {
            return None;
        },
    };
    let start: usize = skip_white(&chars, at);
    let end: usize = find_space(&chars, start);
    if start == end {
        assert(word(chars@.skip(start as int)).len() == 0);
        return None;
    }
    let command: String = upper_between(&chars, start, end);
    let params: Vec<String> = if end < chars.len() {
        read_params(&chars, end + 1)
    } else {
        let none: Vec<String> = Vec::new();
        assert(texts(none@) =~= seq![]);
        none
    };
    Some(IrcMessage { command, params })
}

/// Tags are accepted and ignored: a line says the same with them in front.
pub proof fn law_tags_are_ignored(tags: Seq<char>, line: Seq<char>)
    requires
        !tags.contains(' '),
        line.len() > 0,
        line.last() != '\r',
        line.last() != '\n',
        line[0] != '@',
    ensures
        parsed(seq!['@'] + tags + seq![' '] + line) == parsed(line),
{
    let all = seq!['@'] + tags + seq![' '] + line;
    assert(all.last() == line.last());
    assert(all.skip(1) =~= tags + (seq![' '] + line));
    lemma_first_space_after(tags, seq![' '] + line);
    assert(all.skip(1).skip(tags.len() as int + 1) =~= line);
}

/// A prefix is accepted and ignored: a line says the same with it in front.
pub proof fn law_prefix_is_ignored(prefix: Seq<char>, line: Seq<char>)
    requires
        !prefix.contains(' '),
        line.len() > 0,
        line.last() != '\r',
        line.last() != '\n',
        line[0] != '@',
        line[0] != ':',
    ensures
        parsed(seq![':'] + prefix + seq![' '] + line) == parsed(line),
{
    let all = seq![':'] + prefix + seq![' '] + line;
    assert(all.last() == line.last());
    assert(all.skip(1) =~= prefix + (seq![' '] + line));
    lemma_first_space_after(prefix, seq![' '] + line);
    assert(all.skip(1).skip(prefix.len() as int + 1) =~= line);
}

proof fn lemma_first_space_after(word: Seq<char>, rest: Seq<char>)
    requires
        !word.contains(' '),
        rest.len() > 0,
        rest[0] == ' ',
    ensures
        first_space(word + rest) == word.len(),
    decreases word.len(),
{
    if word.len() == 0 {
        assert(word + rest =~= rest);
    } else {
        assert(word.contains(word[0]));
        assert((word + rest).drop_first() =~= word.drop_first() + rest);
        assert(!word.drop_first().contains(' ')) by {
            if word.drop_first().contains(' ') {
                let i = choose|i: int| 0 <= i < word.drop_first().len() && word.drop_first()[i] == ' ';
                assert(word[i + 1] == ' ');
            }
        }
        lemma_first_space_after(word.drop_first(), rest);
    }
}

/// An instant, given in milliseconds since 1970, as an IRCv3 `server-time` tag
/// value.
pub open spec fn time_text(ts_ms: u64) -> Seq<char> {
    let days = ts_ms as int / 86_400_000;
    let of_day = ts_ms as int % 86_400_000;
    let (year, month, day) = date_at(days);
    padded(year as nat, 4) + "-"@ + padded(month as nat, 2) + "-"@ + padded(day as nat, 2) + "T"@
        + padded((of_day / 3_600_000) as nat, 2) + ":"@ + padded(
        (of_day / 60_000 % 60) as nat,
        2,
    ) + ":"@ + padded((of_day / 1_000 % 60) as nat, 2) + "."@ + padded((of_day % 1_000) as nat, 3)
        + "Z"@
}

/// Format the unix-ms timestamp as an IRCv3 `server-time` tag value
/// (`2011-10-19T16:40:51.620Z`).
pub fn server_time(ts_ms: u64) -> (r: String)
    ensures
        r@ == time_text(ts_ms),
{
    let of_day: u64 = ts_ms % 86_400_000;
    let (year, month, day) = date_of(ts_ms / 86_400_000);
    let mut r: String = padded_of(year, 4);
    r.append("-");
    r.append(padded_of(month, 2).as_str());
    r.append("-");
    r.append(padded_of(day, 2).as_str());
    r.append("T");
    r.append(padded_of(of_day / 3_600_000, 2).as_str());
    r.append(":");
    r.append(padded_of(of_day / 60_000 % 60, 2).as_str());
    r.append(":");
    r.append(padded_of(of_day / 1_000 % 60, 2).as_str());
    r.append(".");
    r.append(padded_of(of_day % 1_000, 3).as_str());
    r.append("Z");
    r
}

proof fn lemma_first_space_none(s: Seq<char>)
    requires
        !s.contains(' '),
    ensures
        first_space(s) == s.len(),
    decreases s.len(),
{
    if s.len() > 0 {
        assert(s.contains(s[0]));
        assert(!s.drop_first().contains(' ')) by {
            if s.drop_first().contains(' ') {
                let i = choose|i: int| 0 <= i < s.drop_first().len() && s.drop_first()[i] == ' ';
                assert(s[i + 1] == ' ');
            }
        }
        lemma_first_space_none(s.drop_first());
    }
}

/// What a client writes is what is read: a command, a target and a text behind a colon
/// come out as they went in, the command in capitals, the text with all its spaces and
/// colons.
pub proof fn law_what_is_written_is_read(command: Seq<char>, target: Seq<char>, text: Seq<char>)
    requires
        command.len() > 0,
        !command.contains(' '),
        !is_space(command[0]),
        command[0] != '@',
        command[0] != ':',
        target.len() > 0,
        !target.contains(' '),
        !is_space(target[0]),
        target[0] != ':',
        text.len() > 0,
        text.last() != '\r',
        text.last() != '\n',
    ensures
        parsed(command + seq![' '] + target + seq![' ', ':'] + text) == Some(
            IrcMessageView { command: upper_all(command), params: seq![target, text] },
        ),
{
    let tail = seq![' ', ':'] + text;
    let args = target + tail;
    let line = command + seq![' '] + target + seq![' ', ':'] + text;
    assert(line =~= command + (seq![' '] + args));
    assert(line.last() == text.last());
    assert(without_breaks(line) == line);
    assert(line[0] == command[0]);
    assert(trim_start(line) == line);
    lemma_first_space_after(command, seq![' '] + args);
    assert(word(line) =~= command);
    assert(line.skip(command.len() as int + 1) =~= args);
    assert(args[0] == target[0]);
    assert(trim_start(args) == args);
    lemma_first_space_after(target, tail);
    assert(word(args) =~= target);
    let rest = args.skip(target.len() as int + 1);
    assert(rest =~= seq![':'] + text);
    assert(!is_space(':'));
    assert(trim_start(rest) == rest);
    assert(rest.skip(1) =~= text);
    assert(params_of(rest) =~= seq![text]);
    assert(params_of(args) =~= seq![target, text]);
}

/// A command alone is read as one, without parameters.
pub proof fn law_a_bare_command_is_read(command: Seq<char>)
    requires
        command.len() > 0,
        !command.contains(' '),
        !is_space(command[0]),
        command[0] != '@',
        command[0] != ':',
        command.last() != '\r',
        command.last() != '\n',
    ensures
        parsed(command) == Some(IrcMessageView { command: upper_all(command), params: seq![] }),
{
    assert(without_breaks(command) == command);
    assert(trim_start(command) == command);
    lemma_first_space_none(command);
    assert(word(command) =~= command);
}

/// How a line ends does not matter, and an empty line says nothing.
pub proof fn law_line_ends_are_ignored(line: Seq<char>)
    ensures
        parsed(line.push('\n')) == parsed(line),
        parsed(line.push('\r')) == parsed(line),
        parsed(line.push('\r').push('\n')) == parsed(line),
        parsed(Seq::<char>::empty()) is None,
{
    assert(line.push('\n').drop_last() =~= line);
    assert(line.push('\r').drop_last() =~= line);
    assert(line.push('\r').push('\n').drop_last() =~= line.push('\r'));
}

/// A time reads as its date, its hour, its minute, its second and its milliseconds, in
/// this order, with as many digits as each has.
pub proof fn law_times_read_by_their_parts(year: int, month: int, day: int, ms: u64)
    requires
        super::calendar::is_date(year, month, day),
        1970 <= year,
        super::calendar::day_number(year, month, day) >= 0,
        ms < 86_400_000,
        super::calendar::day_number(year, month, day) * 86_400_000 + ms <= u64::MAX,
    ensures
        time_text(
            (super::calendar::day_number(year, month, day) * 86_400_000 + ms) as u64,
        ) == padded(year as nat, 4) + "-"@ + padded(month as nat, 2) + "-"@ + padded(day as nat, 2)
            + "T"@ + padded((ms / 3_600_000) as nat, 2) + ":"@ + padded(
            (ms / 60_000 % 60) as nat,
            2,
        ) + ":"@ + padded((ms / 1_000 % 60) as nat, 2) + "."@ + padded((ms % 1_000) as nat, 3)
            + "Z"@,
{
    let n = super::calendar::day_number(year, month, day);
    let ts = n * 86_400_000 + ms;
    assert(ts / 86_400_000 == n && ts % 86_400_000 == ms);
    super::calendar::law_dates_are_found_again(year, month, day);
}

/// Parameters are separated by spaces, however many there are, and one that a colon opens
/// runs to the end.
pub proof fn law_parameters_are_separated_by_spaces(first: Seq<char>, rest: Seq<char>)
    requires
        first.len() > 0,
        !first.contains(' '),
        !is_space(first[0]),
        first[0] != ':',
    ensures
        params_of(first) == seq![first],
        params_of(first + (seq![' '] + rest)) == seq![first] + params_of(rest),
        params_of(seq![' '] + rest) == params_of(rest),
        params_of(seq![':'] + rest) == seq![rest],
        params_of(Seq::<char>::empty()).len() == 0,
{
    assert(trim_start(first) == first);
    lemma_first_space_none(first);
    let s = first + (seq![' '] + rest);
    assert(s[0] == first[0]);
    assert(trim_start(s) == s);
    lemma_first_space_after(first, seq![' '] + rest);
    assert(word(s) =~= first);
    assert(s.skip(first.len() as int + 1) =~= rest);
    let t = seq![' '] + rest;
    assert(is_space(' '));
    assert(t.drop_first() =~= rest);
    assert(trim_start(t) == trim_start(rest));
    let u = seq![':'] + rest;
    assert(!is_space(':'));
    assert(trim_start(u) == u);
    assert(u.skip(1) =~= rest);
}

/// Every text of a list is told, in order, as it reads.
pub proof fn law_every_text_is_told(list: Seq<String>, i: int)
    ensures
        texts(list).len() == list.len(),
        0 <= i < list.len() ==> texts(list)[i] == list[i]@,
{
}

} // verus!
