//! The small texts that IRC lines are made of.

use vstd::prelude::*;

use crate::messaging::{ChannelName, Role};
use crate::shared::IdentityId;
use crate::text::{
    chars_of, hex_digit, hex_of, hex_text, is_space, same_text, space_char, string_between,
    trim_start,
};

use super::proto::{lemma_trim_start_len, texts};

verus! {

/// The label of an identity that announced no nickname.
pub open spec fn short_text(id: IdentityId) -> Seq<char> {
    hex_text(id@.take(6))
}

/// The nickname, or the label in its place.
pub open spec fn label(nick: Option<Seq<char>>, id: IdentityId) -> Seq<char> {
    match nick {
        Some(n) => n,
        None => short_text(id),
    }
}

/// Who a line comes from.
pub open spec fn prefix_text(nick: Seq<char>, id: IdentityId) -> Seq<char> {
    nick + "!"@ + short_text(id) + "@mikall"@
}

pub open spec fn sigil(role: Role) -> Seq<char> {
    match role {
        Role::Founder => "~"@,
        Role::Op => "@"@,
        Role::Member => ""@,
    }
}

pub fn short_id(id: &IdentityId) -> (r: String)
    ensures
        r@ == short_text(*id),
{
    id.short_hex()
}

pub fn prefix(nick: &str, id: &IdentityId) -> (r: String)
    ensures
        r@ == prefix_text(nick@, *id),
{
    let mut r: String = nick.to_owned();
    r.append("!");
    r.append(short_id(id).as_str());
    r.append("@mikall");
    r
}

pub fn role_sigil(role: Role) -> (r: &'static str)
    ensures
        r@ == sigil(role),
{
    match role {
        Role::Founder => "~",
        Role::Op => "@",
        Role::Member => "",
    }
}

pub fn identity_hex(id: &IdentityId) -> (r: String)
    ensures
        r@ == hex_text(id@),
{
    let bytes: &[u8; 32] = id.as_bytes();
    hex_of(bytes)
}

/// What a hexadecimal digit is worth, in either case.
pub open spec fn hex_worth(c: char) -> Option<u8> {
    if '0' <= c && c <= '9' {
        Some((c as u8 - '0' as u8) as u8)
    } else if 'a' <= c && c <= 'f' {
        Some((c as u8 - 'a' as u8 + 10) as u8)
    } else if 'A' <= c && c <= 'F' {
        Some((c as u8 - 'A' as u8 + 10) as u8)
    } else {
        None
    }
}

/// Sixty-four hexadecimal digits.
pub open spec fn is_identity_hex(s: Seq<char>) -> bool {
    s.len() == 64 && forall|i: int| 0 <= i < 64 ==> hex_worth(#[trigger] s[i]) is Some
}

/// The bytes that hexadecimal digits stand for.
pub open spec fn hex_bytes(s: Seq<char>) -> Seq<u8> {
    Seq::new(
        s.len() / 2,
        |i: int| (16 * hex_worth(s[2 * i])->0 + hex_worth(s[2 * i + 1])->0) as u8,
    )
}

fn hex_worth_of(c: char) -> (r: Option<u8>)
    ensures
        r == hex_worth(c),
        r matches Some(v) ==> v < 16,
{
    if '0' <= c && c <= '9' {
        Some(c as u8 - '0' as u8)
    } else if 'a' <= c && c <= 'f' {
        Some(c as u8 - 'a' as u8 + 10)
    } else if 'A' <= c && c <= 'F' {
        Some(c as u8 - 'A' as u8 + 10)
    } else {
        None
    }
}

pub fn parse_identity_hex(hex: &str) -> (r: Option<IdentityId>)
    ensures
        match r {
            Some(id) => is_identity_hex(hex@) && id@ == hex_bytes(hex@),
            None => !is_identity_hex(hex@),
        },
{
    let chars: Vec<char> = chars_of(hex);
    if chars.len() != 64 {
        return None;
    }
    let mut bytes: [u8; 32] = [0;32];
    let mut i: usize = 0;
    while i < 32
        invariant
            i <= 32,
            chars@ == hex@,
            chars@.len() == 64,
            forall|j: int| 0 <= j < 2 * i ==> hex_worth(#[trigger] chars@[j]) is Some,
            forall|j: int| 0 <= j < i ==> #[trigger] bytes@[j] == hex_bytes(chars@)[j],
        decreases 32 - i,
    {
        match (hex_worth_of(chars[2 * i]), hex_worth_of(chars[2 * i + 1])) {
            (Some(high), Some(low)) => {
                bytes[i] = 16 * high + low;
                assert forall|j: int| 0 <= j < 2 * (i + 1) implies hex_worth(#[trigger] chars@[j]) is Some by {
                    assert(j < 2 * i || j == 2 * i || j == 2 * i + 1);
                }
            },
            (None, _) => {
                assert(hex_worth(hex@[2 * i]) is None);
                return None;
            },
            (_, None) => {
                assert(hex_worth(hex@[2 * i + 1]) is None);
                return None;
            },
        }
        i = i + 1;
    }
    let id = IdentityId::from_bytes(bytes);
    assert(id@ =~= hex_bytes(hex@));
    Some(id)
}

/// Reading back the digits of an identity gives the identity.
pub proof fn law_identity_hex_reads_back(id: IdentityId)
    ensures
        is_identity_hex(hex_text(id@)),
        hex_bytes(hex_text(id@)) == id@,
{
    reveal_strlit("0123456789abcdef");
    let s = hex_text(id@);
    IdentityId::lemma_view_injective(id, id);
    assert forall|n: int| 0 <= n < 16 implies hex_worth(#[trigger] hex_digit(n)) == Some(n as u8) by {
    }
    assert forall|i: int| 0 <= i < 64 implies hex_worth(#[trigger] s[i]) is Some by {
        let b = id@[i / 2] as int;
        assert(0 <= b / 16 < 16 && 0 <= b % 16 < 16);
        if i % 2 == 0 {
            assert(s[i] == hex_digit(b / 16));
        } else {
            assert(s[i] == hex_digit(b % 16));
        }
    }
    assert forall|i: int| 0 <= i < 32 implies #[trigger] hex_bytes(s)[i] == id@[i] by {
        let b = id@[i] as int;
        assert((2 * i) / 2 == i && (2 * i + 1) / 2 == i && (2 * i) % 2 == 0 && (2 * i + 1) % 2 == 1);
        assert(s[2 * i] == hex_digit(b / 16));
        assert(s[2 * i + 1] == hex_digit(b % 16));
        assert(hex_worth(hex_digit(b / 16)) == Some((b / 16) as u8));
        assert(hex_worth(hex_digit(b % 16)) == Some((b % 16) as u8));
    }
    assert(hex_bytes(s) =~= id@);
}

/// Where the first `c` stands: at the end, if there is none.
pub open spec fn first_at(s: Seq<char>, c: char) -> int
    decreases s.len(),
{
    if s.len() == 0 || s[0] == c {
        0
    } else {
        1 + first_at(s.drop_first(), c)
    }
}

pub proof fn lemma_first_at(s: Seq<char>, c: char)
    ensures
        0 <= first_at(s, c) <= s.len(),
    decreases s.len(),
{
    if s.len() > 0 && s[0] != c {
        lemma_first_at(s.drop_first(), c);
    }
}

/// The parts between the `c`s.
pub open spec fn parts(s: Seq<char>, c: char) -> Seq<Seq<char>>
    decreases s.len(),
{
    let b = first_at(s, c);
    if b >= s.len() {
        seq![s]
    } else {
        proof {
            lemma_first_at(s, c);
        }
        seq![s.take(b)] + parts(s.skip(b + 1), c)
    }
}

/// The text cut at every `c`.
pub fn split_at_every(s: &str, c: char) -> (r: Vec<String>)
    ensures
        texts(r@) == parts(s@, c),
{
    let chars: Vec<char> = chars_of(s);
    let mut r: Vec<String> = Vec::new();
    let mut from: usize = 0;
    let mut i: usize = 0;
    let ghost all = parts(s@, c);
    assert(chars@.skip(0) =~= chars@);
    assert(texts(r@) + all =~= all);
    assert(first_at(chars@.skip(0), c) == first_at(chars@.skip(0), c) + 0);
    while i < chars.len()
        invariant
            from <= i <= chars@.len(),
            chars@ == s@,
            texts(r@) + parts(chars@.skip(from as int), c) == all,
            first_at(chars@.skip(from as int), c) == i - from + first_at(chars@.skip(i as int), c),
        decreases chars@.len() - i,
    {
        let ghost rest = chars@.skip(from as int);
        let ghost before = texts(r@);
        if chars[i] == c {
            let part: String = string_between(&chars, from, i);
            assert(part@ =~= rest.take(i - from));
            assert(rest.skip(i - from + 1) =~= chars@.skip(i + 1));
            r.push(part);
            assert(texts(r@) =~= before + seq![part@]);
            assert(before + (seq![part@] + parts(chars@.skip(i + 1), c)) =~= before + seq![part@]
                + parts(chars@.skip(i + 1), c));
            from = i + 1;
        } else {
            assert(chars@.skip(i as int).drop_first() =~= chars@.skip(i + 1));
        }
        i = i + 1;
    }
    let ghost before = texts(r@);
    let part: String = string_between(&chars, from, chars.len());
    assert(part@ =~= chars@.skip(from as int));
    r.push(part);
    assert(texts(r@) =~= before + seq![part@]);
    r
}

/// How many characters come before the first white space.
pub open spec fn word_len(s: Seq<char>) -> int
    decreases s.len(),
{
    if s.len() == 0 || is_space(s[0]) {
        0
    } else {
        1 + word_len(s.drop_first())
    }
}

pub proof fn lemma_word_len(s: Seq<char>)
    ensures
        0 <= word_len(s) <= s.len(),
        s.len() > 0 && !is_space(s[0]) ==> word_len(s) > 0,
    decreases s.len(),
{
    if s.len() > 0 && !is_space(s[0]) {
        lemma_word_len(s.drop_first());
    }
}

pub proof fn lemma_trim_start_first(s: Seq<char>)
    ensures
        trim_start(s).len() > 0 ==> !is_space(trim_start(s)[0]),
    decreases s.len(),
{
    if s.len() > 0 && is_space(s[0]) {
        lemma_trim_start_first(s.drop_first());
    }
}

/// The words between white space.
pub open spec fn words(s: Seq<char>) -> Seq<Seq<char>>
    decreases s.len(),
{
    let t = trim_start(s);
    if t.len() == 0 {
        seq![]
    } else {
        proof {
            lemma_trim_start_len(s);
            lemma_trim_start_first(s);
            lemma_word_len(t);
        }
        seq![t.take(word_len(t))] + words(t.skip(word_len(t)))
    }
}

/// The words of a text.
pub fn split_words(s: &str) -> (r: Vec<String>)
    ensures
        texts(r@) == words(s@),
{
    let chars: Vec<char> = chars_of(s);
    let mut r: Vec<String> = Vec::new();
    let mut i: usize = 0;
    let ghost all = words(s@);
    assert(chars@.skip(0) =~= chars@);
    assert(texts(r@) + all =~= all);
    loop
        invariant_except_break
            i <= chars@.len(),
            chars@ == s@,
            texts(r@) + words(chars@.skip(i as int)) == all,
        ensures
            texts(r@) == all,
        decreases chars@.len() - i,
    {
        let ghost rest = chars@.skip(i as int);
        let mut from: usize = i;
        while from < chars.len() && space_char(chars[from])
            invariant
                i <= from <= chars@.len(),
                trim_start(chars@.skip(from as int)) == trim_start(rest),
            decreases chars@.len() - from,
        {
            assert(chars@.skip(from as int).drop_first() =~= chars@.skip(from + 1));
            from = from + 1;
        }
        let ghost t = chars@.skip(from as int);
        let ghost before = texts(r@);
        if from == chars.len() {
            assert(before + Seq::<Seq<char>>::empty() =~= before);
            break;
        }
        let mut to: usize = from;
        while to < chars.len() && !space_char(chars[to])
            invariant
                from <= to <= chars@.len(),
                t == chars@.skip(from as int),
                word_len(t) == to - from + word_len(chars@.skip(to as int)),
            decreases chars@.len() - to,
        {
            assert(chars@.skip(to as int).drop_first() =~= chars@.skip(to + 1));
            to = to + 1;
        }
        proof {
            lemma_word_len(t);
        }
        let word: String = string_between(&chars, from, to);
        assert(word@ =~= t.take(word_len(t)));
        assert(t.skip(word_len(t)) =~= chars@.skip(to as int));
        r.push(word);
        assert(texts(r@) =~= before + seq![word@]);
        assert(before + (seq![word@] + words(chars@.skip(to as int))) =~= before + seq![word@]
            + words(chars@.skip(to as int)));
        i = to;
    }
    r
}

/// The texts, one after the other, with a space between.
pub open spec fn spaced(list: Seq<Seq<char>>) -> Seq<char>
    decreases list.len(),
{
    if list.len() == 0 {
        Seq::empty()
    } else if list.len() == 1 {
        list[0]
    } else {
        spaced(list.drop_last()) + " "@ + list.last()
    }
}

/// The texts, one after the other, with a space between.
pub fn join_spaced(list: &Vec<String>) -> (r: String)
    ensures
        r@ == spaced(texts(list@)),
{
    let mut r = String::new();
    let mut i: usize = 0;
    let ghost all = texts(list@);
    assert(all.take(0) =~= Seq::<Seq<char>>::empty());
    while i < list.len()
        invariant
            i <= list@.len(),
            all == texts(list@),
            r@ == spaced(all.take(i as int)),
        decreases list@.len() - i,
    {
        proof {
            assert(all.take(i + 1).drop_last() =~= all.take(i as int));
            assert(all.take(i + 1).last() == list@[i as int]@);
        }
        if i > 0 {
            r.append(" ");
        }
        r.append(list[i].as_str());
        if i == 0 {
            assert(r@ =~= list@[0]@);
            assert(all.take(1)[0] == list@[0]@);
        }
        i = i + 1;
    }
    assert(all.take(i as int) =~= all);
    r
}

/// The channels that a client has joined through the gateway.
#[derive(Debug)]
pub struct JoinedNames {
    names: Vec<ChannelName>,
}

impl View for JoinedNames {
    type V = Set<Seq<char>>;

    closed spec fn view(&self) -> Set<Seq<char>> {
        Set::new(|t: Seq<char>| exists|i: int| 0 <= i < self.names@.len() && #[trigger] self.names@[i]@ == t)
    }
}

impl JoinedNames {
    /// No name is listed twice.
    pub closed spec fn wf(&self) -> bool {
        forall|i: int, j: int|
            0 <= i < self.names@.len() && 0 <= j < self.names@.len() && (#[trigger] self.names@[i])@ == (
            #[trigger] self.names@[j])@ ==> i == j
    }

    pub fn new() -> (r: JoinedNames)
        ensures
            r.wf(),
            r@ == Set::<Seq<char>>::empty(),
    {
        let r = JoinedNames { names: Vec::new() };
        assert(r@ =~= Set::<Seq<char>>::empty());
        r
    }

    fn position(&self, name: &ChannelName) -> (r: Option<usize>)
        ensures
            match r {
                Some(i) => i < self.names@.len() && self.names@[i as int]@ == name@,
                None => !self@.contains(name@),
            },
    {
        let mut i: usize = 0;
        while i < self.names.len()
            invariant
                i <= self.names@.len(),
                forall|j: int| 0 <= j < i ==> (#[trigger] self.names@[j])@ != name@,
            decreases self.names@.len() - i,
        {
            if same_text(self.names[i].as_str(), name.as_str()) {
                return Some(i);
            }
            i = i + 1;
        }
        None
    }

    pub fn contains(&self, name: &ChannelName) -> (r: bool)
        ensures
            r == self@.contains(name@),
    {
        self.position(name).is_some()
    }

    pub fn insert(&mut self, name: ChannelName)
        requires
            old(self).wf(),
        ensures
            final(self).wf(),
            final(self)@ == old(self)@.insert(name@),
    {
        if !self.contains(&name) {
            let ghost before = self.names@;
            self.names.push(name);
            proof {
                assert forall|t: Seq<char>| self@.contains(t) <==> old(self)@.insert(name@).contains(t) by {
                    if old(self)@.contains(t) {
                        let i = choose|i: int| 0 <= i < before.len() && #[trigger] before[i]@ == t;
                        assert(self.names@[i]@ == t);
                    }
                    if t == name@ {
                        assert(self.names@[before.len() as int]@ == t);
                    }
                    if self@.contains(t) {
                        let i = choose|i: int| 0 <= i < self.names@.len() && #[trigger] self.names@[i]@ == t;
                        if i < before.len() {
                            assert(before[i]@ == t);
                        }
                    }
                }
                assert(self@ =~= old(self)@.insert(name@));
                assert forall|i: int, j: int|
                    0 <= i < self.names@.len() && 0 <= j < self.names@.len() && (#[trigger] self.names@[i])@ == (
                    #[trigger] self.names@[j])@ implies i == j by {
                    if i < before.len() && j == before.len() {
                        assert(before[i]@ == name@);
                    }
                    if j < before.len() && i == before.len() {
                        assert(before[j]@ == name@);
                    }
                    if i < before.len() && j < before.len() {
                        assert(before[i]@ == before[j]@);
                    }
                }
            }
        } else {
            assert(self@ =~= old(self)@.insert(name@));
        }
    }

    /// Whether the name was there.
    pub fn remove(&mut self, name: &ChannelName) -> (r: bool)
        requires
            old(self).wf(),
        ensures
            final(self).wf(),
            r == old(self)@.contains(name@),
            final(self)@ == old(self)@.remove(name@),
    {
        match self.position(name) {
            Some(k) => {
                let ghost before = self.names@;
                assert(before[k as int]@ == name@);
                self.names.remove(k);
                proof {
                    let after = self.names@;
                    assert forall|t: Seq<char>| self@.contains(t) <==> old(self)@.remove(name@).contains(t) by {
                        if self@.contains(t) {
                            let i = choose|i: int| 0 <= i < after.len() && #[trigger] after[i]@ == t;
                            let j = if i < k {
                                i
                            } else {
                                i + 1
                            };
                            assert(before[j]@ == t);
                        }
                        if old(self)@.contains(t) && t != name@ {
                            let j = choose|j: int| 0 <= j < before.len() && #[trigger] before[j]@ == t;
                            let i = if j < k {
                                j
                            } else {
                                j - 1
                            };
                            assert(after[i]@ == t);
                        }
                    }
                    assert(self@ =~= old(self)@.remove(name@));
                    assert forall|i: int, j: int|
                        0 <= i < after.len() && 0 <= j < after.len() && (#[trigger] after[i])@ == (
                        #[trigger] after[j])@ implies i == j by {
                        let a = if i < k {
                            i
                        } else {
                            i + 1
                        };
                        let b = if j < k {
                            j
                        } else {
                            j + 1
                        };
                        assert(before[a]@ == before[b]@);
                    }
                }
                true
            },
            None => {
                assert(self@ =~= old(self)@.remove(name@));
                false
            },
        }
    }
}

proof fn lemma_first_at_after(part: Seq<char>, c: char, rest: Seq<char>)
    requires
        !part.contains(c),
    ensures
        first_at(part, c) == part.len(),
        first_at(part.push(c) + rest, c) == part.len(),
    decreases part.len(),
{
    let s = part.push(c) + rest;
    if part.len() > 0 {
        let t = part.drop_first();
        assert(part.contains(part[0]));
        assert(!t.contains(c)) by {
            if t.contains(c) {
                let i = choose|i: int| 0 <= i < t.len() && t[i] == c;
                assert(part[i + 1] == c);
            }
        }
        lemma_first_at_after(t, c, rest);
        assert(s[0] == part[0]);
        assert(s.drop_first() =~= t.push(c) + rest);
    } else {
        assert(s[0] == c);
    }
}

/// A list is cut at every separator: what stands before the first one is the first part,
/// and the rest is cut as if it stood alone. Without one it is one part.
pub proof fn law_lists_are_cut_at_every_separator(part: Seq<char>, c: char, rest: Seq<char>)
    requires
        !part.contains(c),
    ensures
        parts(part, c) == seq![part],
        parts(part.push(c) + rest, c) == seq![part] + parts(rest, c),
{
    let s = part.push(c) + rest;
    lemma_first_at_after(part, c, rest);
    assert(s.take(part.len() as int) =~= part);
    assert(s.skip(part.len() as int + 1) =~= rest);
}

/// Labels: a nickname where there is one, and six bytes in hexadecimal where there is
/// none; a prefix names both.
pub proof fn law_labels_name_their_owner(nick: Seq<char>, id: IdentityId)
    ensures
        label(Some(nick), id) == nick,
        label(None, id) == hex_text(id@.take(6)),
        short_text(id) == hex_text(id@.take(6)),
        prefix_text(nick, id) == nick + "!"@ + hex_text(id@.take(6)) + "@mikall"@,
        sigil(Role::Founder) == "~"@,
        sigil(Role::Op) == "@"@,
        sigil(Role::Member) == ""@,
{
}

/// A list put together has one space between its texts.
pub proof fn law_lists_are_spaced(list: Seq<Seq<char>>, last: Seq<char>)
    ensures
        spaced(Seq::<Seq<char>>::empty()).len() == 0,
        spaced(seq![last]) == last,
        list.len() > 0 ==> spaced(list.push(last)) == spaced(list) + " "@ + last,
{
    assert(list.push(last).drop_last() =~= list);
}

/// Words are what stands between spaces: a word alone is one, and a word with a space behind
/// it is followed by the words of the rest.
pub proof fn law_words_stand_between_spaces(first: Seq<char>, rest: Seq<char>)
    requires
        first.len() > 0,
        forall|i: int| 0 <= i < first.len() ==> !is_space(#[trigger] first[i]),
    ensures
        words(first) == seq![first],
        words(first.push(' ') + rest) == seq![first] + words(rest),
        words(Seq::<char>::empty()).len() == 0,
{
    let s = first.push(' ') + rest;
    let n = first.len() as int;
    lemma_word_len_is(first, n);
    assert(s[0] == first[0]);
    assert(trim_start(first) == first);
    assert(trim_start(s) == s);
    assert(is_space(' '));
    assert forall|i: int| 0 <= i < n implies !is_space(#[trigger] s[i]) by {
        assert(s[i] == first[i]);
    }
    assert(s[n] == ' ');
    lemma_word_len_is(s, n);
    assert(first.take(n) =~= first);
    assert(s.take(n) =~= first);
    assert(trim_start(first.skip(n)).len() == 0) by {
        lemma_trim_start_len(first.skip(n));
    }
    assert(words(first.skip(n)) =~= Seq::<Seq<char>>::empty());
    assert(words(first) =~= seq![first]);
    let t = s.skip(n);
    assert(t[0] == ' ');
    assert(t.drop_first() =~= rest);
    assert(trim_start(t) == trim_start(rest));
    assert(words(t) == words(rest));
}

proof fn lemma_word_len_is(s: Seq<char>, n: int)
    requires
        0 <= n <= s.len(),
        forall|i: int| 0 <= i < n ==> !is_space(#[trigger] s[i]),
        n < s.len() ==> is_space(s[n]),
    ensures
        word_len(s) == n,
    decreases s.len(),
{
    if n > 0 {
        let t = s.drop_first();
        assert forall|i: int| 0 <= i < n - 1 implies !is_space(#[trigger] t[i]) by {
            assert(t[i] == s[i + 1]);
        }
        lemma_word_len_is(t, n - 1);
    }
}

} // verus!
