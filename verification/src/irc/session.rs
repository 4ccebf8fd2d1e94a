//! One client's session with the gateway: what its lines ask for, and what it
//! is told.
//!
//! A line either is answered at once or asks for work that leaves the node
//! (joining, posting, setting a topic): see [`Ask`]. The outcome of that work
//! comes back through the `..._done` functions.

use vstd::prelude::*;

use crate::events::{AppEvent, AppEventView, DomainEvent, DomainEventView};
use crate::identity::{IdentityEvent, TrustLevel};
use crate::messaging::channel::ChannelView;
use crate::messaging::dag::{display_order, history_of};
use crate::messaging::message::MessageView;
use crate::messaging::values::{channel_name_fault, line_views, nickname_fault, text_chunks};
use crate::messaging::{
    ChannelError, ChannelName, IrcSafeLine, MessageBody, MessageId, MessagingEvent,
    MessagingEventView, Nickname, Role,
};
use crate::order::Key;
use crate::ports::ChannelRecord;
use crate::services::chat::{
    rendered_ids, ChatError, ChatService, ChatView, MemberView, RenderedMessage,
};
use crate::services::identity::{IdentityService, ProfileView};
use crate::services::presence::PresenceError;
use crate::shared::{grouped_base32, Fingerprint, IdentityId};
use crate::sorted::in_order;
use crate::text::{
    chars_of, hex_text, lower_all, opens_with, same_ignoring_case, same_text, string_between,
    upper_all, upper_char,
};
use crate::wording::{chat_error_text, presence_error_text};

use super::bind::constant_time_eq;
use super::compose::{
    add_line, add_lines, cat2, cat3, cat4, cat5, cat6, cat7, no_lines, one_line,
};
use super::proto::{
    parse_line, parsed, server_time, texts, time_text, IrcMessage, IrcMessageView,
};
use super::words::{
    identity_hex, is_identity_hex, hex_bytes, join_spaced, label, parse_identity_hex, parts, prefix,
    prefix_text, role_sigil, short_id, short_text, sigil, spaced, split_at_every, split_words,
    words, JoinedNames,
};

verus! {

/// What a client asks of the node.
#[derive(Debug)]
pub enum Ask {
    Nothing,
    SetNickname(Nickname),
    /// The targets, one by one.
    Join(Vec<String>),
    Part(ChannelName),
    Post { name: ChannelName, target: String, text: String, notice: bool },
    Dm { to: IdentityId, target: String, text: String, notice: bool },
    SetTopic { name: ChannelName, target: String, topic: String },
    List,
    Away(Option<String>),
    SetRole {
        name: ChannelName,
        target: String,
        mode: String,
        arg: String,
        who: IdentityId,
        role: Role,
    },
    Block(IdentityId),
}

/// What an ask says.
pub enum AskView {
    Nothing,
    SetNickname(Seq<char>),
    Join(Seq<Seq<char>>),
    Part(Seq<char>),
    Post { name: Seq<char>, target: Seq<char>, text: Seq<char>, notice: bool },
    Dm { to: IdentityId, target: Seq<char>, text: Seq<char>, notice: bool },
    SetTopic { name: Seq<char>, target: Seq<char>, topic: Seq<char> },
    List,
    Away(Option<Seq<char>>),
    SetRole {
        name: Seq<char>,
        target: Seq<char>,
        mode: Seq<char>,
        arg: Seq<char>,
        who: IdentityId,
        role: Role,
    },
    Block(IdentityId),
}

impl View for Ask {
    type V = AskView;

    open spec fn view(&self) -> AskView {
        match *self {
            Ask::Nothing => AskView::Nothing,
            Ask::SetNickname(n) => AskView::SetNickname(n@),
            Ask::Join(targets) => AskView::Join(texts(targets@)),
            Ask::Part(name) => AskView::Part(name@),
            Ask::Post { name, target, text, notice } => AskView::Post {
                name: name@,
                target: target@,
                text: text@,
                notice,
            },
            Ask::Dm { to, target, text, notice } => AskView::Dm {
                to,
                target: target@,
                text: text@,
                notice,
            },
            Ask::SetTopic { name, target, topic } => AskView::SetTopic {
                name: name@,
                target: target@,
                topic: topic@,
            },
            Ask::List => AskView::List,
            Ask::Away(m) => AskView::Away(
                match m {
                    Some(m) => Some(m@),
                    None => None,
                },
            ),
            Ask::SetRole { name, target, mode, arg, who, role } => AskView::SetRole {
                name: name@,
                target: target@,
                mode: mode@,
                arg: arg@,
                who,
                role,
            },
            Ask::Block(who) => AskView::Block(who),
        }
    }
}

/// What a line comes to.
#[derive(Debug)]
pub struct Step {
    pub lines: Vec<String>,
    pub ask: Ask,
    /// Whether the session goes on.
    pub open: bool,
}

/// What a session holds.
pub struct SessionView {
    pub me: IdentityId,
    pub nick: Option<Seq<char>>,
    pub got_user: bool,
    pub got_pass: Option<Seq<char>>,
    pub password: Option<Seq<char>>,
    pub registered: bool,
    pub cap_negotiating: bool,
    pub server_time: bool,
    pub message_tags: bool,
    pub joined: Set<Seq<char>>,
}

/// What a line comes to, and the session after it.
pub struct StepView {
    pub next: SessionView,
    pub lines: Seq<Seq<char>>,
    pub ask: AskView,
    pub open: bool,
}

/// Answered at once, with nothing changed.
pub open spec fn reply(s: SessionView, lines: Seq<Seq<char>>) -> StepView {
    StepView { next: s, lines, ask: AskView::Nothing, open: true }
}

/// Work for the node, with nothing changed.
pub open spec fn asking(s: SessionView, ask: AskView) -> StepView {
    StepView { next: s, lines: seq![], ask, open: true }
}

/// The parameter at `i`, if there are that many.
pub open spec fn param(m: IrcMessageView, i: int) -> Option<Seq<char>> {
    if i < m.params.len() {
        Some(m.params[i])
    } else {
        None
    }
}

impl SessionView {
    /// A numeric reply.
    pub open spec fn numeric(self, code: Seq<char>, rest: Seq<char>) -> Seq<char> {
        ":mikall.local "@ + code + " "@ + (match self.nick {
            Some(n) => n,
            None => "*"@,
        }) + " "@ + rest
    }

    pub open spec fn my_nick(self) -> Seq<char> {
        label(self.nick, self.me)
    }

    /// A line of our own doing.
    pub open spec fn own(self, rest: Seq<char>) -> Seq<char> {
        ":"@ + prefix_text(self.my_nick(), self.me) + rest
    }

    pub open spec fn motd(self) -> Seq<Seq<char>> {
        seq![
            self.numeric("375"@, ":- mikall.local Message of the day -"@),
            self.numeric(
                "372"@,
                ":- mikall: serverless chat. Channels live on peers, not servers."@,
            ),
            self.numeric("372"@, ":- Identity is a keypair; verify fingerprints with /WHOIS."@),
            self.numeric("376"@, ":End of /MOTD command"@),
        ]
    }

    /// The welcome of a client that has just registered.
    pub open spec fn welcome(self) -> Seq<Seq<char>> {
        let greeting = seq![
            self.numeric("001"@, ":Welcome to the mikall network "@ + self.my_nick()),
            self.numeric("002"@, ":Your host is mikall.local, running mikall 0.1"@),
            self.numeric("003"@, ":This server was created just for you"@),
            self.numeric("004"@, "mikall.local mikall-0.1 o ont"@),
            self.numeric(
                "005"@,
                "CASEMAPPING=ascii CHANTYPES=# NICKLEN=16 TOPICLEN=390 NETWORK=mikall :are supported by this server"@,
            ),
        ];
        (greeting + self.motd()).push(
            ":mikall.local NOTICE "@ + self.my_nick()
                + " :E2E encryption ends at this node; this gateway is plaintext on loopback. Other local processes may connect - set irc.password on shared machines."@,
        )
    }

    /// The client may register: it has a nickname and a user, and negotiates
    /// no capabilities any more.
    pub open spec fn ready(self) -> bool {
        !self.registered && !self.cap_negotiating && self.nick is Some && self.got_user
    }

    /// The password is right, or none is asked for.
    pub open spec fn admitted(self) -> bool {
        match self.password {
            Some(required) => required == match self.got_pass {
                Some(supplied) => supplied,
                None => ""@,
            },
            None => true,
        }
    }

    /// The session once it has tried to register.
    pub open spec fn after_register(self) -> SessionView {
        SessionView { registered: self.registered || (self.ready() && self.admitted()), ..self }
    }

    pub open spec fn register_lines(self) -> Seq<Seq<char>> {
        if !self.ready() {
            seq![]
        } else if !self.admitted() {
            seq![self.numeric("464"@, ":Password incorrect"@), "ERROR :Access denied"@]
        } else {
            self.after_register().welcome()
        }
    }

    pub open spec fn time_tag(self, ts_ms: u64) -> Seq<char> {
        if self.server_time {
            "@time="@ + time_text(ts_ms) + " "@
        } else {
            Seq::empty()
        }
    }

    /// A text as lines from `nick` to `target`.
    pub open spec fn privmsgs(
        self,
        tag: Seq<char>,
        nick: Seq<char>,
        id: IdentityId,
        target: Seq<char>,
        body: Seq<char>,
    ) -> Seq<Seq<char>> {
        text_chunks(body).map_values(
            |line: Seq<char>|
                tag + ":"@ + prefix_text(nick, id) + " PRIVMSG "@ + target + " :"@ + line,
        )
    }

    /// The topic of `name`, or that there is none.
    pub open spec fn topic_line(self, chat: ChatView, name: Seq<char>) -> Seq<char> {
        if chat.joined(name) && chat.channel(name).topic.len() > 0 {
            self.numeric("332"@, name + " :"@ + chat.channel(name).topic)
        } else {
            self.numeric("331"@, name + " :No topic is set"@)
        }
    }

    /// The members of `name`, with their roles.
    pub open spec fn names_lines(self, chat: ChatView, profile: ProfileView, name: Seq<char>) -> Seq<
        Seq<char>,
    > {
        let list = if chat.joined(name) {
            seq![
                self.numeric(
                    "353"@,
                    "= "@ + name + " :"@ + spaced(member_labels(chat.channel(name), profile)),
                ),
            ]
        } else {
            Seq::<Seq<char>>::empty()
        };
        list.push(self.numeric("366"@, name + " :End of /NAMES list"@))
    }

    /// The last fifty messages of `name`, each stamped with its time.
    pub open spec fn history_lines(self, chat: ChatView, profile: ProfileView, name: Seq<char>) -> Seq<
        Seq<char>,
    > {
        if chat.joined(name) {
            let history = history_of(chat.channel(name).known);
            let order = display_order(history);
            let start = if order.len() > 50 {
                order.len() - 50
            } else {
                0
            };
            self.replayed(history, profile, name, order.skip(start))
        } else {
            seq![]
        }
    }

    /// The messages named, as stamped lines.
    pub open spec fn replayed(
        self,
        history: Map<MessageId, MessageView>,
        profile: ProfileView,
        name: Seq<char>,
        ids: Seq<MessageId>,
    ) -> Seq<Seq<char>>
        decreases ids.len(),
    {
        if ids.len() == 0 {
            seq![]
        } else {
            let m = history[ids.last()];
            self.replayed(history, profile, name, ids.drop_last()) + self.privmsgs(
                "@time="@ + time_text(m.ts_hint_ms) + " "@,
                label(profile.nick_of(m.author), m.author),
                m.author,
                name,
                m.body,
            )
        }
    }

    pub open spec fn no_such_channel(self, target: Seq<char>) -> Seq<char> {
        self.numeric("403"@, target + " :No such channel"@)
    }

    /// One line per member of `name`.
    pub open spec fn who_lines(self, c: ChannelView, profile: ProfileView, name: Seq<char>) -> Seq<
        Seq<char>,
    > {
        in_order(c.members.dom()).map_values(
            |id: IdentityId|
                self.numeric(
                    "352"@,
                    name + " "@ + short_text(id) + " mikall mikall.local "@ + label(
                        profile.nick_of(id),
                        id,
                    ) + " H :0 "@ + hex_text(id@),
                ),
        )
    }
}

/// The members of a channel with the sigils of their roles, in id order.
pub open spec fn member_labels(c: ChannelView, profile: ProfileView) -> Seq<Seq<char>> {
    in_order(c.members.dom()).map_values(
        |id: IdentityId| sigil(c.members[id]) + label(profile.nick_of(id), id),
    )
}

/// Who `target` means: an identity written out, or else a nickname.
pub open spec fn resolved(profile: ProfileView, target: Seq<char>, who: Option<IdentityId>) -> bool {
    if is_identity_hex(target) {
        who is Some && who->0@ == hex_bytes(target)
    } else {
        who == profile.by_nickname(target)
    }
}

/// Who `target` means.
pub open spec fn meant(profile: ProfileView, target: Seq<char>) -> Option<IdentityId> {
    choose|who: Option<IdentityId>| resolved(profile, target, who)
}

/// A target means one identity, or none.
proof fn lemma_meant(profile: ProfileView, target: Seq<char>, who: Option<IdentityId>)
    requires
        resolved(profile, target, who),
    ensures
        meant(profile, target) == who,
{
    let other = meant(profile, target);
    if is_identity_hex(target) {
        IdentityId::lemma_view_injective(who->0, other->0);
    }
}

/// `s` without the `c`s at its end.
pub open spec fn without_trailing(s: Seq<char>, c: char) -> Seq<char>
    decreases s.len(),
{
    if s.len() > 0 && s.last() == c {
        without_trailing(s.drop_last(), c)
    } else {
        s
    }
}

/// A CTCP action reads `/me ...`; any other text is as it is.
pub open spec fn spoken(text: Seq<char>) -> Seq<char> {
    let mark = "\u{1}ACTION "@;
    if mark.is_prefix_of(text) {
        "/me "@ + without_trailing(text.skip(mark.len() as int), '\u{1}')
    } else {
        text
    }
}

/// Whether a capability is one that the gateway has.
pub open spec fn is_cap(cap: Seq<char>) -> bool {
    cap == "server-time"@ || cap == "message-tags"@
}

/// `CAP`: capability negotiation.
pub open spec fn cap_step(s: SessionView, m: IrcMessageView) -> StepView {
    let sub = match param(m, 0) {
        Some(p) => upper_all(p),
        None => ""@,
    };
    if sub == "LS"@ {
        StepView {
            next: SessionView { cap_negotiating: !s.registered, ..s },
            ..reply(s, seq![":mikall.local CAP * LS :message-tags server-time"@])
        }
    } else if sub == "REQ"@ {
        let requested = match param(m, 1) {
            Some(p) => words(p),
            None => seq![],
        };
        let acked = requested.filter(|cap: Seq<char>| is_cap(cap));
        StepView {
            next: SessionView {
                server_time: s.server_time || requested.contains("server-time"@),
                message_tags: s.message_tags || requested.contains("message-tags"@),
                ..s
            },
            ..reply(s, seq![":mikall.local CAP * ACK :"@ + spaced(acked)])
        }
    } else if sub == "END"@ {
        StepView { next: SessionView { cap_negotiating: false, ..s }, ..reply(s, seq![]) }
    } else {
        reply(s, seq![])
    }
}

/// `NICK`, before the client tries to register.
pub open spec fn nick_step(s: SessionView, m: IrcMessageView) -> StepView {
    match param(m, 0) {
        None => reply(s, seq![s.numeric("431"@, ":No nickname given"@)]),
        Some(raw) => if nickname_fault(raw) is None {
            StepView {
                next: SessionView { nick: Some(raw), ..s },
                lines: if s.registered {
                    seq![s.own(" NICK :"@ + raw)]
                } else {
                    seq![]
                },
                ask: AskView::SetNickname(raw),
                open: true,
            }
        } else {
            reply(s, seq![s.numeric("432"@, raw + " :Erroneous nickname"@)])
        },
    }
}

/// The step, after which the client tries to register.
pub open spec fn registering(step: StepView) -> StepView {
    StepView {
        next: step.next.after_register(),
        lines: step.lines + step.next.register_lines(),
        ..step
    }
}

/// `PART`.
pub open spec fn part_step(s: SessionView, m: IrcMessageView) -> StepView {
    match param(m, 0) {
        None => reply(s, seq![s.numeric("461"@, "PART :Not enough parameters"@)]),
        Some(target) => {
            let name = lower_all(target);
            if channel_name_fault(target) is Some {
                reply(s, seq![s.no_such_channel(target)])
            } else if !s.joined.contains(name) {
                reply(s, seq![s.numeric("442"@, target + " :You're not on that channel"@)])
            } else {
                StepView {
                    next: SessionView { joined: s.joined.remove(name), ..s },
                    lines: seq![s.own(" PART "@ + name)],
                    ask: AskView::Part(name),
                    open: true,
                }
            }
        },
    }
}

/// `PRIVMSG` and `NOTICE`. A notice is never answered.
pub open spec fn privmsg_step(s: SessionView, profile: ProfileView, m: IrcMessageView) -> StepView {
    let notice = m.command == "NOTICE"@;
    let unless_notice = |line: Seq<char>|
        reply(
            s,
            if notice {
                seq![]
            } else {
                seq![line]
            },
        );
    match (param(m, 0), param(m, 1)) {
        (Some(target), Some(raw)) => {
            let text = spoken(raw);
            if target.len() > 0 && target[0] == '#' {
                let name = lower_all(target);
                if channel_name_fault(target) is Some {
                    unless_notice(s.no_such_channel(target))
                } else if !s.joined.contains(name) {
                    unless_notice(s.numeric("442"@, target + " :You're not on that channel"@))
                } else {
                    asking(s, AskView::Post { name, target, text, notice })
                }
            } else {
                match meant(profile, target) {
                    Some(to) => asking(s, AskView::Dm { to, target, text, notice }),
                    None => unless_notice(s.numeric("401"@, target + " :No such nick"@)),
                }
            }
        },
        _ => unless_notice(s.numeric("411"@, ":No recipient given (PRIVMSG)"@)),
    }
}

/// `TOPIC`: read without a text, set with one.
pub open spec fn topic_step(s: SessionView, chat: ChatView, m: IrcMessageView) -> StepView {
    match param(m, 0) {
        None => reply(s, seq![s.numeric("461"@, "TOPIC :Not enough parameters"@)]),
        Some(target) => {
            let name = lower_all(target);
            if channel_name_fault(target) is Some {
                reply(s, seq![s.no_such_channel(target)])
            } else {
                match param(m, 1) {
                    None => reply(s, seq![s.topic_line(chat, name)]),
                    Some(topic) => asking(s, AskView::SetTopic { name, target, topic }),
                }
            }
        },
    }
}

/// `NAMES`.
pub open spec fn names_step(s: SessionView, chat: ChatView, profile: ProfileView, m: IrcMessageView) -> StepView {
    match param(m, 0) {
        Some(target) => if channel_name_fault(target) is None {
            reply(s, s.names_lines(chat, profile, lower_all(target)))
        } else {
            reply(s, seq![])
        },
        None => reply(s, seq![]),
    }
}

/// `WHO`.
pub open spec fn who_step(s: SessionView, chat: ChatView, profile: ProfileView, m: IrcMessageView) -> StepView {
    match param(m, 0) {
        None => reply(s, seq![s.numeric("315"@, "* :End of /WHO list"@)]),
        Some(target) => {
            let name = lower_all(target);
            let members = if channel_name_fault(target) is None && chat.joined(name) {
                s.who_lines(chat.channel(name), profile, name)
            } else {
                seq![]
            };
            reply(s, members.push(s.numeric("315"@, target + " :End of /WHO list"@)))
        },
    }
}

/// How far a key is trusted, in words.
pub open spec fn trust_text(s: SessionView, profile: ProfileView, id: IdentityId) -> Seq<char> {
    if id == s.me {
        "self"@
    } else if !profile.contacts.contains_key(id) {
        "UNVERIFIED"@
    } else {
        match profile.contacts[id].trust {
            TrustLevel::Verified { .. } => "verified"@,
            TrustLevel::TofuPinned { .. } => "tofu-pinned"@,
            TrustLevel::Blocked => "blocked"@,
            TrustLevel::Unverified => "UNVERIFIED"@,
        }
    }
}

/// The fingerprint to show for `id`, if one is known.
pub open spec fn shown_fingerprint(s: SessionView, profile: ProfileView, id: IdentityId) -> Option<
    Fingerprint,
> {
    if id == s.me {
        Some(profile.fingerprint)
    } else if profile.contacts.contains_key(id) {
        Some(profile.contacts[id].fingerprint)
    } else {
        None
    }
}

/// `WHOIS`: who it is, and how far their key is trusted.
pub open spec fn whois_step(s: SessionView, profile: ProfileView, m: IrcMessageView) -> StepView {
    match param(m, 0) {
        None => reply(s, seq![s.numeric("431"@, ":No nickname given"@)]),
        Some(target) => {
            let who = if lower_all(target) == lower_all(s.my_nick()) {
                Some(s.me)
            } else {
                meant(profile, target)
            };
            match who {
                None => reply(s, seq![s.numeric("401"@, target + " :No such nick"@)]),
                Some(id) => {
                    let first = seq![
                        s.numeric(
                            "311"@,
                            target + " "@ + short_text(id) + " mikall * :"@ + hex_text(id@),
                        ),
                    ];
                    let seen = match shown_fingerprint(s, profile, id) {
                        Some(fp) => first.push(
                            s.numeric(
                                "320"@,
                                target + " :fingerprint "@ + grouped_base32(fp@) + " ("@ + trust_text(
                                    s,
                                    profile,
                                    id,
                                ) + ")"@,
                            ),
                        ),
                        None => first,
                    };
                    reply(s, seen.push(s.numeric("318"@, target + " :End of /WHOIS list"@)))
                },
            }
        },
    }
}

/// `AWAY`: an empty message clears it.
pub open spec fn away_step(s: SessionView, m: IrcMessageView) -> StepView {
    asking(
        s,
        AskView::Away(
            match param(m, 0) {
                Some(text) => if text.len() == 0 {
                    None
                } else {
                    Some(text)
                },
                None => None,
            },
        ),
    )
}

/// `MODE`: operators and bans; user modes are not supported.
pub open spec fn mode_step(s: SessionView, profile: ProfileView, m: IrcMessageView) -> StepView {
    match param(m, 0) {
        None => reply(s, seq![s.numeric("461"@, "MODE :Not enough parameters"@)]),
        Some(target) => {
            let name = lower_all(target);
            if channel_name_fault(target) is Some {
                reply(s, seq![])
            } else {
                match (param(m, 1), param(m, 2)) {
                    (None, _) => reply(s, seq![s.numeric("324"@, name + " +nt"@)]),
                    (Some(mode), Some(arg)) => if mode == "+o"@ || mode == "-o"@ {
                        match meant(profile, arg) {
                            None => reply(s, seq![s.numeric("401"@, arg + " :No such nick"@)]),
                            Some(who) => asking(
                                s,
                                AskView::SetRole {
                                    name,
                                    target,
                                    mode,
                                    arg,
                                    who,
                                    role: if mode == "+o"@ {
                                        Role::Op
                                    } else {
                                        Role::Member
                                    },
                                },
                            ),
                        }
                    } else if mode == "+b"@ {
                        StepView {
                            ask: match meant(profile, arg) {
                                Some(who) => AskView::Block(who),
                                None => AskView::Nothing,
                            },
                            ..reply(
                                s,
                                seq![
                                    ":mikall.local NOTICE "@ + s.my_nick()
                                        + " :decentralized network: bans are local blocklist entries on this node only"@,
                                ],
                            )
                        }
                    } else {
                        reply(s, seq![])
                    },
                    _ => reply(s, seq![]),
                }
            }
        },
    }
}

/// What a registered client's command comes to.
pub open spec fn registered_step(
    s: SessionView,
    chat: ChatView,
    profile: ProfileView,
    m: IrcMessageView,
) -> StepView {
    if m.command == "JOIN"@ {
        match param(m, 0) {
            None => reply(s, seq![s.numeric("461"@, "JOIN :Not enough parameters"@)]),
            Some(targets) => asking(s, AskView::Join(parts(targets, ','))),
        }
    } else if m.command == "PART"@ {
        part_step(s, m)
    } else if m.command == "PRIVMSG"@ || m.command == "NOTICE"@ {
        privmsg_step(s, profile, m)
    } else if m.command == "TOPIC"@ {
        topic_step(s, chat, m)
    } else if m.command == "NAMES"@ {
        names_step(s, chat, profile, m)
    } else if m.command == "WHO"@ {
        who_step(s, chat, profile, m)
    } else if m.command == "LIST"@ {
        asking(s, AskView::List)
    } else if m.command == "WHOIS"@ {
        whois_step(s, profile, m)
    } else if m.command == "AWAY"@ {
        away_step(s, m)
    } else if m.command == "MODE"@ {
        mode_step(s, profile, m)
    } else if m.command == "MOTD"@ {
        reply(s, s.motd())
    } else {
        reply(s, seq![s.numeric("421"@, m.command + " :Unknown command"@)])
    }
}

/// What a client's message comes to. Before it has registered, a client can do
/// no more than register, ping and quit.
pub open spec fn message_step(
    s: SessionView,
    chat: ChatView,
    profile: ProfileView,
    m: IrcMessageView,
) -> StepView {
    if m.command == "PASS"@ {
        StepView { next: SessionView { got_pass: param(m, 0), ..s }, ..reply(s, seq![]) }
    } else if m.command == "CAP"@ {
        cap_step(s, m)
    } else if m.command == "NICK"@ {
        registering(nick_step(s, m))
    } else if m.command == "USER"@ {
        registering(StepView { next: SessionView { got_user: true, ..s }, ..reply(s, seq![]) })
    } else if m.command == "PING"@ {
        reply(
            s,
            seq![
                ":mikall.local PONG mikall.local :"@ + match param(m, 0) {
                    Some(token) => token,
                    None => ""@,
                },
            ],
        )
    } else if m.command == "QUIT"@ {
        StepView { open: false, ..reply(s, seq![]) }
    } else if !s.registered {
        reply(s, seq![s.numeric("451"@, ":You have not registered"@)])
    } else {
        registered_step(s, chat, profile, m)
    }
}

/// What a client's line comes to.
pub open spec fn line_step(s: SessionView, chat: ChatView, profile: ProfileView, raw: Seq<char>) -> StepView {
    match parsed(raw) {
        None => reply(s, seq![]),
        Some(m) => message_step(s, chat, profile, m),
    }
}

/// What a client hears of its `JOIN`: a refusal, or the channel with its topic,
/// its members and, if it takes times, its latest messages.
pub open spec fn join_lines(
    s: SessionView,
    chat: ChatView,
    profile: ProfileView,
    name: Seq<char>,
    target: Seq<char>,
    refusal: Option<ChatError>,
) -> Seq<Seq<char>> {
    match refusal {
        Some(e) => seq![s.numeric("403"@, target + " :Cannot join: "@ + chat_error_text(e))],
        None => seq![s.own(" JOIN "@ + name), s.topic_line(chat, name)] + s.names_lines(
            chat,
            profile,
            name,
        ) + if s.server_time {
            s.history_lines(chat, profile, name)
        } else {
            seq![]
        },
    }
}

/// What a client hears of its message to a channel.
pub open spec fn post_lines(
    s: SessionView,
    target: Seq<char>,
    notice: bool,
    refusal: Option<ChatError>,
) -> Seq<Seq<char>> {
    match refusal {
        Some(e) => if notice {
            seq![]
        } else if e is Body {
            seq![s.numeric("412"@, ":No text to send"@)]
        } else {
            seq![s.numeric("404"@, target + " :Cannot send: "@ + chat_error_text(e))]
        },
        None => seq![],
    }
}

/// What a client hears of its `TOPIC`.
pub open spec fn topic_lines(
    s: SessionView,
    name: Seq<char>,
    target: Seq<char>,
    topic: Seq<char>,
    refusal: Option<ChatError>,
) -> Seq<Seq<char>> {
    match refusal {
        None => seq![s.own(" TOPIC "@ + name + " :"@ + topic)],
        Some(ChatError::Channel(ChannelError::NotAnOperator)) => seq![
            s.numeric("482"@, target + " :You're not channel operator"@),
        ],
        Some(e) => seq![s.numeric("403"@, target + " :Cannot set topic: "@ + chat_error_text(e))],
    }
}

/// What a client hears of its `MODE +o` or `MODE -o`.
pub open spec fn role_lines(
    s: SessionView,
    name: Seq<char>,
    target: Seq<char>,
    mode: Seq<char>,
    arg: Seq<char>,
    refusal: Option<ChatError>,
) -> Seq<Seq<char>> {
    match refusal {
        None => seq![s.own(" MODE "@ + name + " "@ + mode + " "@ + arg)],
        Some(ChatError::Channel(ChannelError::NotFounder)) => seq![
            s.numeric("482"@, target + " :Only the founder can change ops"@),
        ],
        Some(e) => seq![s.numeric("482"@, target + " :"@ + chat_error_text(e))],
    }
}

/// What a client hears of its `AWAY`.
pub open spec fn away_lines(s: SessionView, away: bool, refusal: Option<PresenceError>) -> Seq<
    Seq<char>,
> {
    match refusal {
        None => if away {
            seq![s.numeric("306"@, ":You have been marked as being away"@)]
        } else {
            seq![s.numeric("305"@, ":You are no longer marked as being away"@)]
        },
        Some(e) => seq![s.numeric("461"@, "AWAY :"@ + presence_error_text(e))],
    }
}

/// The channels that the directory knows.
pub open spec fn list_lines(s: SessionView, records: Seq<ChannelRecord>) -> Seq<Seq<char>> {
    (seq![s.numeric("321"@, "Channel :Users Name"@)] + records.map_values(
        |r: ChannelRecord| s.numeric("322"@, r.name@ + " 0 :"@),
    )).push(s.numeric("323"@, ":End of /LIST"@))
}

/// The joined channel that an event is about, unless it is our own doing.
pub open spec fn heard_on(
    s: SessionView,
    chat: ChatView,
    channel: crate::messaging::ChannelId,
    who: IdentityId,
) -> Option<Seq<char>> {
    match chat.name_of(channel) {
        Some(name) => if who != s.me && s.joined.contains(name) {
            Some(name)
        } else {
            None
        },
        None => None,
    }
}

/// A line of `who`'s doing.
pub open spec fn doing(profile: ProfileView, who: IdentityId, rest: Seq<char>) -> Seq<char> {
    ":"@ + prefix_text(label(profile.nick_of(who), who), who) + rest
}

/// What a client hears of a messaging event: who joined, left or set the topic
/// of a channel it is on.
pub open spec fn messaging_lines(
    s: SessionView,
    chat: ChatView,
    profile: ProfileView,
    event: MessagingEventView,
) -> Seq<Seq<char>> {
    match event {
        MessagingEventView::ChannelJoined { channel, who } => match heard_on(s, chat, channel, who) {
            Some(name) => seq![doing(profile, who, " JOIN "@ + name)],
            None => seq![],
        },
        MessagingEventView::ChannelLeft { channel, who } => match heard_on(s, chat, channel, who) {
            Some(name) => seq![doing(profile, who, " PART "@ + name)],
            None => seq![],
        },
        MessagingEventView::TopicChanged { channel, by, topic } => match heard_on(
            s,
            chat,
            channel,
            by,
        ) {
            Some(name) => seq![doing(profile, by, " TOPIC "@ + name + " :"@ + topic)],
            None => seq![],
        },
        _ => seq![],
    }
}

/// What a client hears of an event. Nothing, before it has registered; nothing
/// of its own messages; nothing of channels it is not on.
pub open spec fn event_lines(
    s: SessionView,
    chat: ChatView,
    profile: ProfileView,
    event: AppEventView,
) -> Seq<Seq<char>> {
    if !s.registered {
        seq![]
    } else {
        match event {
            AppEventView::ChannelMessage { channel, author, author_nick, body, ts_hint_ms, .. } => {
                if author == s.me || !s.joined.contains(channel) {
                    seq![]
                } else {
                    s.privmsgs(
                        s.time_tag(ts_hint_ms),
                        label(author_nick, author),
                        author,
                        channel,
                        body,
                    )
                }
            },
            AppEventView::DirectMessage { from, from_nick, body, ts_hint_ms, .. } => {
                if from == s.me {
                    seq![]
                } else {
                    s.privmsgs(
                        s.time_tag(ts_hint_ms),
                        label(from_nick, from),
                        from,
                        s.my_nick(),
                        body,
                    )
                }
            },
            AppEventView::Domain(DomainEventView::Messaging(e)) => messaging_lines(
                s,
                chat,
                profile,
                e,
            ),
            AppEventView::Domain(
                DomainEventView::Identity(IdentityEvent::ContactKeyChanged { id, .. }),
            ) => seq![
                ":mikall.local NOTICE "@ + s.my_nick() + " :WARNING: the key for "@ + short_text(id)
                    + " CHANGED. Verify the new fingerprint out of band before trusting messages."@,
            ],
            AppEventView::TransferSaved { path, .. } => seq![
                ":mikall.local NOTICE "@ + s.my_nick() + " :file transfer complete, saved to "@
                    + path,
            ],
            AppEventView::Domain(_) => seq![],
        }
    }
}

/// One client's session.
pub struct Session {
    me: IdentityId,
    nick: Option<String>,
    got_user: bool,
    got_pass: Option<String>,
    password: Option<String>,
    registered: bool,
    cap_negotiating: bool,
    server_time: bool,
    message_tags: bool,
    joined: JoinedNames,
}

/// The text of an optional string.
pub open spec fn text_of(s: Option<String>) -> Option<Seq<char>> {
    match s {
        Some(s) => Some(s@),
        None => None,
    }
}

impl View for Session {
    type V = SessionView;

    closed spec fn view(&self) -> SessionView {
        SessionView {
            me: self.me,
            nick: text_of(self.nick),
            got_user: self.got_user,
            got_pass: text_of(self.got_pass),
            password: text_of(self.password),
            registered: self.registered,
            cap_negotiating: self.cap_negotiating,
            server_time: self.server_time,
            message_tags: self.message_tags,
            joined: self.joined@,
        }
    }
}

impl Step {
    /// The step is `v`, and leaves the session as it says.
    pub open spec fn is(self, v: StepView, after: SessionView) -> bool {
        &&& after == v.next
        &&& texts(self.lines@) == v.lines
        &&& self.ask@ == v.ask
        &&& self.open == v.open
    }

    fn reply(lines: Vec<String>) -> (r: Step)
        ensures
            texts(r.lines@) == texts(lines@),
            r.ask@ == AskView::Nothing,
            r.open,
    {
        Step { lines, ask: Ask::Nothing, open: true }
    }

    fn asking(ask: Ask) -> (r: Step)
        ensures
            texts(r.lines@) == Seq::<Seq<char>>::empty(),
            r.ask@ == ask@,
            r.open,
    {
        Step { lines: no_lines(), ask, open: true }
    }
}

/// The nickname as a string.
fn nick_string(nick: &Option<Nickname>, id: &IdentityId) -> (r: String)
    ensures
        r@ == label(crate::events::nick_text(*nick), *id),
{
    match nick {
        Some(n) => n.as_str().to_owned(),
        None => short_id(id),
    }
}

/// Who `target` means: an identity written out, or else a nickname.
pub fn resolve_target(profile: &IdentityService, target: &str) -> (r: Option<IdentityId>)
    requires
        profile.wf(),
    ensures
        r == meant(profile@, target@),
{
    let r: Option<IdentityId> = match parse_identity_hex(target) {
        Some(id) => Some(id),
        None => profile.identity_by_nickname(target),
    };
    proof {
        lemma_meant(profile@, target@, r);
    }
    r
}

/// `text` in capitals.
fn capitals(text: &str) -> (r: String)
    ensures
        r@ == upper_all(text@),
{
    let chars: Vec<char> = chars_of(text);
    let mut r = String::new();
    let mut i: usize = 0;
    while i < chars.len()
        invariant
            i <= chars@.len(),
            chars@ == text@,
            r@ == upper_all(text@).take(i as int),
        decreases chars@.len() - i,
    {
        r.push(upper_char(chars[i]));
        assert(upper_all(text@).take(i + 1) =~= upper_all(text@).take(i as int).push(
            upper_all(text@)[i as int],
        ));
        i = i + 1;
    }
    assert(upper_all(text@).take(i as int) =~= upper_all(text@));
    r
}

/// A CTCP action as `/me ...`; any other text as it is.
fn speak(text: &str) -> (r: String)
    ensures
        r@ == spoken(text@),
{
    let chars: Vec<char> = chars_of(text);
    let mark: Vec<char> = chars_of("\u{1}ACTION ");
    if chars.len() < mark.len() {
        assert(!mark@.is_prefix_of(text@));
        return text.to_owned();
    }
    let mut i: usize = 0;
    while i < mark.len()
        invariant
            i <= mark@.len() <= chars@.len(),
            chars@ == text@,
            mark@ == "\u{1}ACTION "@,
            forall|j: int| 0 <= j < i ==> chars@[j] == mark@[j],
        decreases mark@.len() - i,
    {
        if chars[i] != mark[i] {
            assert(!mark@.is_prefix_of(text@));
            return text.to_owned();
        }
        i = i + 1;
    }
    assert(mark@.is_prefix_of(text@)) by {
        assert(mark@ =~= text@.subrange(0, mark@.len() as int));
    }
    let from: usize = mark.len();
    let mut to: usize = chars.len();
    let ghost action = text@.skip(from as int);
    assert(chars@.subrange(from as int, to as int) =~= action);
    while to > from && chars[to - 1] == '\u{1}'
        invariant
            from <= to <= chars@.len(),
            without_trailing(chars@.subrange(from as int, to as int), '\u{1}') == without_trailing(
                action,
                '\u{1}',
            ),
        decreases to - from,
    {
        assert(chars@.subrange(from as int, to as int).drop_last() =~= chars@.subrange(
            from as int,
            to - 1,
        ));
        to = to - 1;
    }
    let action_text: String = string_between(&chars, from, to);
    cat2("/me ", action_text.as_str())
}

/// The parameter at `i`, if there are that many.
fn param_at(m: &IrcMessage, i: usize) -> (r: Option<&String>)
    ensures
        match r {
            Some(p) => param(m@, i as int) == Some(p@),
            None => param(m@, i as int) is None,
        },
{
    if i < m.params.len() {
        assert(texts(m.params@)[i as int] == m.params@[i as int]@);
        Some(&m.params[i])
    } else {
        None
    }
}

impl Session {
    pub closed spec fn wf(&self) -> bool {
        self.joined.wf()
    }

    /// A client has connected. `password` is what it must know, if anything.
    pub fn new(me: IdentityId, password: Option<String>) -> (r: Session)
        ensures
            r.wf(),
            r@ == (SessionView {
                me,
                nick: None,
                got_user: false,
                got_pass: None,
                password: text_of(password),
                registered: false,
                cap_negotiating: false,
                server_time: false,
                message_tags: false,
                joined: Set::<Seq<char>>::empty(),
            }),
    {
        Session {
            me,
            nick: None,
            got_user: false,
            got_pass: None,
            password,
            registered: false,
            cap_negotiating: false,
            server_time: false,
            message_tags: false,
            joined: JoinedNames::new(),
        }
    }

    fn numeric(&self, code: &str, rest: &str) -> (r: String)
        ensures
            r@ == self@.numeric(code@, rest@),
    {
        let nick: &str = match &self.nick {
            Some(n) => n.as_str(),
            None => "*",
        };
        cat6(":mikall.local ", code, " ", nick, " ", rest)
    }

    fn my_nick(&self) -> (r: String)
        ensures
            r@ == self@.my_nick(),
    {
        match &self.nick {
            Some(n) => n.clone(),
            None => short_id(&self.me),
        }
    }

    /// A line of our own doing.
    fn own(&self, rest: &str) -> (r: String)
        ensures
            r@ == self@.own(rest@),
    {
        let who: String = prefix(self.my_nick().as_str(), &self.me);
        cat3(":", who.as_str(), rest)
    }

    fn no_such_channel(&self, target: &str) -> (r: String)
        ensures
            r@ == self@.no_such_channel(target@),
    {
        self.numeric("403", cat2(target, " :No such channel").as_str())
    }

    fn send_motd(&self) -> (r: Vec<String>)
        ensures
            texts(r@) == self@.motd(),
    {
        let mut r: Vec<String> = one_line(
            self.numeric("375", ":- mikall.local Message of the day -"),
        );
        add_line(
            &mut r,
            self.numeric("372", ":- mikall: serverless chat. Channels live on peers, not servers."),
        );
        add_line(
            &mut r,
            self.numeric("372", ":- Identity is a keypair; verify fingerprints with /WHOIS."),
        );
        add_line(&mut r, self.numeric("376", ":End of /MOTD command"));
        assert(texts(r@) =~= self@.motd());
        r
    }

    fn welcome(&self) -> (r: Vec<String>)
        ensures
            texts(r@) == self@.welcome(),
    {
        let nick: String = self.my_nick();
        let mut r: Vec<String> = one_line(
            self.numeric("001", cat2(":Welcome to the mikall network ", nick.as_str()).as_str()),
        );
        add_line(&mut r, self.numeric("002", ":Your host is mikall.local, running mikall 0.1"));
        add_line(&mut r, self.numeric("003", ":This server was created just for you"));
        add_line(&mut r, self.numeric("004", "mikall.local mikall-0.1 o ont"));
        add_line(
            &mut r,
            self.numeric(
                "005",
                "CASEMAPPING=ascii CHANTYPES=# NICKLEN=16 TOPICLEN=390 NETWORK=mikall :are supported by this server",
            ),
        );
        let ghost greeting = texts(r@);
        add_lines(&mut r, self.send_motd());
        let notice: String = cat3(
            ":mikall.local NOTICE ",
            nick.as_str(),
            " :E2E encryption ends at this node; this gateway is plaintext on loopback. Other local processes may connect - set irc.password on shared machines.",
        );
        add_line(&mut r, notice);
        assert(texts(r@) =~= self@.welcome());
        r
    }

    /// Registers the client, if it has said all it must and knows the
    /// password.
    fn try_register(&mut self) -> (r: Vec<String>)
        requires
            old(self).wf(),
        ensures
            final(self).wf(),
            final(self)@ == old(self)@.after_register(),
            texts(r@) == old(self)@.register_lines(),
    {
        if self.registered || self.cap_negotiating || self.nick.is_none() || !self.got_user {
            return no_lines();
        }
        let admitted: bool = match &self.password {
            Some(required) => {
                let supplied: &str = match &self.got_pass {
                    Some(p) => p.as_str(),
                    None => "",
                };
                constant_time_eq(required.as_str(), supplied)
            },
            None => true,
        };
        if !admitted {
            let mut r: Vec<String> = one_line(self.numeric("464", ":Password incorrect"));
            add_line(&mut r, "ERROR :Access denied".to_owned());
            assert(texts(r@) =~= old(self)@.register_lines());
            return r;
        }
        self.registered = true;
        self.welcome()
    }

    fn handle_cap(&mut self, m: &IrcMessage) -> (r: Step)
        requires
            old(self).wf(),
        ensures
            final(self).wf(),
            r.is(cap_step(old(self)@, m@), final(self)@),
    {
        let sub: String = match param_at(m, 0) {
            Some(p) => capitals(p.as_str()),
            None => "".to_owned(),
        };
        if same_text(sub.as_str(), "LS") {
            self.cap_negotiating = !self.registered;
            return Step::reply(
                one_line(":mikall.local CAP * LS :message-tags server-time".to_owned()),
            );
        }
        if same_text(sub.as_str(), "REQ") {
            let requested: Vec<String> = match param_at(m, 1) {
                Some(p) => split_words(p.as_str()),
                None => no_lines(),
            };
            let ghost all = texts(requested@);
            let mut acked: Vec<String> = no_lines();
            let mut i: usize = 0;
            proof {
                reveal(Seq::filter);
                assert(all.take(0) =~= Seq::<Seq<char>>::empty());
            }
            let ghost is_known = |cap: Seq<char>| is_cap(cap);
            while i < requested.len()
                invariant
                    i <= requested@.len(),
                    all == texts(requested@),
                    is_known == |cap: Seq<char>| is_cap(cap),
                    texts(acked@) == all.take(i as int).filter(is_known),
                    self.wf(),
                    self@ == (SessionView {
                        server_time: old(self)@.server_time || all.take(i as int).contains(
                            "server-time"@,
                        ),
                        message_tags: old(self)@.message_tags || all.take(i as int).contains(
                            "message-tags"@,
                        ),
                        ..old(self)@
                    }),
                decreases requested@.len() - i,
            {
                let cap: &String = &requested[i];
                let ghost before = all.take(i as int);
                proof {
                    reveal(Seq::filter);
                    assert(all.take(i + 1).drop_last() =~= before);
                    assert(all.take(i + 1).last() == cap@);
                    assert(all.take(i + 1) =~= before.push(cap@));
                    lemma_contains_push(before, cap@, "server-time"@);
                    lemma_contains_push(before, cap@, "message-tags"@);
                }
                let is_time: bool = same_text(cap.as_str(), "server-time");
                let is_tags: bool = same_text(cap.as_str(), "message-tags");
                if is_time {
                    self.server_time = true;
                }
                if is_tags {
                    self.message_tags = true;
                }
                if is_time || is_tags {
                    add_line(&mut acked, cap.clone());
                }
                i = i + 1;
            }
            assert(all.take(i as int) =~= all);
            let ack: String = cat2(":mikall.local CAP * ACK :", join_spaced(&acked).as_str());
            return Step::reply(one_line(ack));
        }
        if same_text(sub.as_str(), "END") {
            self.cap_negotiating = false;
        }
        Step::reply(no_lines())
    }

    fn handle_nick(&mut self, m: &IrcMessage) -> (r: Step)
        requires
            old(self).wf(),
        ensures
            final(self).wf(),
            r.is(nick_step(old(self)@, m@), final(self)@),
    {
        let raw: &String = match param_at(m, 0) {
            Some(raw) => raw,
            None => {
                return Step::reply(one_line(self.numeric("431", ":No nickname given")));
            },
        };
        match Nickname::parse(raw.as_str()) {
            Ok(nick) => {
                let lines: Vec<String> = if self.registered {
                    one_line(self.own(cat2(" NICK :", raw.as_str()).as_str()))
                } else {
                    no_lines()
                };
                self.nick = Some(nick.as_str().to_owned());
                Step { lines, ask: Ask::SetNickname(nick), open: true }
            },
            Err(_) => Step::reply(
                one_line(self.numeric("432", cat2(raw.as_str(), " :Erroneous nickname").as_str())),
            ),
        }
    }

    /// Adds what registering says to a step.
    fn registering(&mut self, step: Step) -> (r: Step)
        requires
            old(self).wf(),
        ensures
            final(self).wf(),
            final(self)@ == old(self)@.after_register(),
            texts(r.lines@) == texts(step.lines@) + old(self)@.register_lines(),
            r.ask@ == step.ask@,
            r.open == step.open,
    {
        let more: Vec<String> = self.try_register();
        let mut lines: Vec<String> = step.lines;
        add_lines(&mut lines, more);
        Step { lines, ask: step.ask, open: step.open }
    }

    fn handle_part(&mut self, m: &IrcMessage) -> (r: Step)
        requires
            old(self).wf(),
        ensures
            final(self).wf(),
            r.is(part_step(old(self)@, m@), final(self)@),
    {
        let target: &String = match param_at(m, 0) {
            Some(target) => target,
            None => {
                return Step::reply(one_line(self.numeric("461", "PART :Not enough parameters")));
            },
        };
        let name: ChannelName = match ChannelName::parse(target.as_str()) {
            Ok(name) => name,
            Err(_) => {
                return Step::reply(one_line(self.no_such_channel(target.as_str())));
            },
        };
        if !self.joined.remove(&name) {
            assert(self@.joined =~= old(self)@.joined);
            let line: String = self.numeric(
                "442",
                cat2(target.as_str(), " :You're not on that channel").as_str(),
            );
            return Step::reply(one_line(line));
        }
        let line: String = self.own(cat2(" PART ", name.as_str()).as_str());
        Step { lines: one_line(line), ask: Ask::Part(name), open: true }
    }

    /// One line, unless it would answer a notice.
    fn unless_notice(notice: bool, line: String) -> (r: Step)
        ensures
            texts(r.lines@) == if notice {
                Seq::<Seq<char>>::empty()
            } else {
                seq![line@]
            },
            r.ask@ == AskView::Nothing,
            r.open,
    {
        if notice {
            Step::reply(no_lines())
        } else {
            Step::reply(one_line(line))
        }
    }

    fn handle_privmsg(&self, profile: &IdentityService, m: &IrcMessage) -> (r: Step)
        requires
            self.wf(),
            profile.wf(),
        ensures
            r.is(privmsg_step(self@, profile@, m@), self@),
    {
        let notice: bool = same_text(m.command.as_str(), "NOTICE");
        let (target, raw): (&String, &String) = match (param_at(m, 0), param_at(m, 1)) {
            (Some(target), Some(raw)) => (target, raw),
            _ => {
                return Self::unless_notice(
                    notice,
                    self.numeric("411", ":No recipient given (PRIVMSG)"),
                );
            },
        };
        let text: String = speak(raw.as_str());
        if opens_with(target.as_str(), '#') {
            let name: ChannelName = match ChannelName::parse(target.as_str()) {
                Ok(name) => name,
                Err(_) => {
                    return Self::unless_notice(notice, self.no_such_channel(target.as_str()));
                },
            };
            if !self.joined.contains(&name) {
                let line: String = self.numeric(
                    "442",
                    cat2(target.as_str(), " :You're not on that channel").as_str(),
                );
                return Self::unless_notice(notice, line);
            }
            Step::asking(Ask::Post { name, target: target.clone(), text, notice })
        } else {
            match resolve_target(profile, target.as_str()) {
                Some(to) => Step::asking(Ask::Dm { to, target: target.clone(), text, notice }),
                None => {
                    let line: String = self.numeric(
                        "401",
                        cat2(target.as_str(), " :No such nick").as_str(),
                    );
                    Self::unless_notice(notice, line)
                },
            }
        }
    }

    fn send_topic_numeric(&self, chat: &ChatService, name: &ChannelName) -> (r: String)
        requires
            chat.wf(),
        ensures
            r@ == self@.topic_line(chat@, name@),
    {
        match chat.topic(name) {
            Ok(topic) => {
                if topic.is_empty() {
                    self.numeric("331", cat2(name.as_str(), " :No topic is set").as_str())
                } else {
                    self.numeric("332", cat3(name.as_str(), " :", topic.as_str()).as_str())
                }
            },
            Err(_) => self.numeric("331", cat2(name.as_str(), " :No topic is set").as_str()),
        }
    }

    fn handle_topic(&self, chat: &ChatService, m: &IrcMessage) -> (r: Step)
        requires
            chat.wf(),
        ensures
            r.is(topic_step(self@, chat@, m@), self@),
    {
        let target: &String = match param_at(m, 0) {
            Some(target) => target,
            None => {
                return Step::reply(one_line(self.numeric("461", "TOPIC :Not enough parameters")));
            },
        };
        let name: ChannelName = match ChannelName::parse(target.as_str()) {
            Ok(name) => name,
            Err(_) => {
                return Step::reply(one_line(self.no_such_channel(target.as_str())));
            },
        };
        match param_at(m, 1) {
            None => Step::reply(one_line(self.send_topic_numeric(chat, &name))),
            Some(topic) => Step::asking(
                Ask::SetTopic { name, target: target.clone(), topic: topic.clone() },
            ),
        }
    }

    fn send_names(&self, chat: &ChatService, profile: &IdentityService, name: &ChannelName) -> (r: Vec<
        String,
    >)
        requires
            chat.wf(),
            profile.wf(),
        ensures
            texts(r@) == self@.names_lines(chat@, profile@, name@),
    {
        let mut r: Vec<String> = no_lines();
        match chat.members(name, profile) {
            Ok(members) => {
                let ghost c = chat@.channel(name@);
                let ghost ids = in_order(c.members.dom());
                let ghost want = member_labels(c, profile@);
                let mut list: Vec<String> = no_lines();
                let mut i: usize = 0;
                assert(want.take(0) =~= Seq::<Seq<char>>::empty());
                while i < members.len()
                    invariant
                        i <= members@.len(),
                        Seq::new(members@.len(), |i: int| members@[i].id) == ids,
                        want == member_labels(c, profile@),
                        ids == in_order(c.members.dom()),
                        forall|i: int|
                            0 <= i < members@.len() ==> c.members[(#[trigger] members@[i]).id]
                                == members@[i].role && crate::events::nick_text(members@[i].nick)
                                == profile@.nick_of(members@[i].id),
                        texts(list@) == want.take(i as int),
                    decreases members@.len() - i,
                {
                    let member: &MemberView = &members[i];
                    assert(ids[i as int] == members@[i as int].id);
                    let nick: String = nick_string(&member.nick, &member.id);
                    let entry: String = cat2(role_sigil(member.role), nick.as_str());
                    assert(entry@ == want[i as int]);
                    add_line(&mut list, entry);
                    assert(want.take(i + 1) =~= want.take(i as int).push(want[i as int]));
                    i = i + 1;
                }
                assert(want.take(i as int) =~= want);
                let joined: String = join_spaced(&list);
                let line: String = self.numeric(
                    "353",
                    cat4("= ", name.as_str(), " :", joined.as_str()).as_str(),
                );
                add_line(&mut r, line);
                assert(texts(r@) =~= seq![line@]);
            },
            Err(_) => {},
        }
        add_line(&mut r, self.numeric("366", cat2(name.as_str(), " :End of /NAMES list").as_str()));
        r
    }

    fn handle_names(&self, chat: &ChatService, profile: &IdentityService, m: &IrcMessage) -> (r: Step)
        requires
            chat.wf(),
            profile.wf(),
        ensures
            r.is(names_step(self@, chat@, profile@, m@), self@),
    {
        match param_at(m, 0) {
            Some(target) => match ChannelName::parse(target.as_str()) {
                Ok(name) => Step::reply(self.send_names(chat, profile, &name)),
                Err(_) => Step::reply(no_lines()),
            },
            None => Step::reply(no_lines()),
        }
    }

    fn handle_who(&self, chat: &ChatService, profile: &IdentityService, m: &IrcMessage) -> (r: Step)
        requires
            chat.wf(),
            profile.wf(),
        ensures
            r.is(who_step(self@, chat@, profile@, m@), self@),
    {
        let target: &String = match param_at(m, 0) {
            Some(target) => target,
            None => {
                return Step::reply(one_line(self.numeric("315", "* :End of /WHO list")));
            },
        };
        let mut lines: Vec<String> = no_lines();
        match ChannelName::parse(target.as_str()) {
            Ok(name) => match chat.members(&name, profile) {
                Ok(members) => {
                    let ghost c = chat@.channel(name@);
                    let ghost ids = in_order(c.members.dom());
                    let ghost want = self@.who_lines(c, profile@, name@);
                    let mut i: usize = 0;
                    assert(want.take(0) =~= Seq::<Seq<char>>::empty());
                    while i < members.len()
                        invariant
                            i <= members@.len(),
                            Seq::new(members@.len(), |i: int| members@[i].id) == ids,
                            want == self@.who_lines(c, profile@, name@),
                            ids == in_order(c.members.dom()),
                            forall|i: int|
                                0 <= i < members@.len() ==> crate::events::nick_text(
                                    (#[trigger] members@[i]).nick,
                                ) == profile@.nick_of(members@[i].id),
                            texts(lines@) == want.take(i as int),
                        decreases members@.len() - i,
                    {
                        let member: &MemberView = &members[i];
                        assert(ids[i as int] == members@[i as int].id);
                        let nick: String = nick_string(&member.nick, &member.id);
                        let rest: String = cat7(
                            name.as_str(),
                            " ",
                            short_id(&member.id).as_str(),
                            " mikall mikall.local ",
                            nick.as_str(),
                            " H :0 ",
                            identity_hex(&member.id).as_str(),
                        );
                        let line: String = self.numeric("352", rest.as_str());
                        assert(line@ == want[i as int]);
                        add_line(&mut lines, line);
                        assert(want.take(i + 1) =~= want.take(i as int).push(want[i as int]));
                        i = i + 1;
                    }
                    assert(want.take(i as int) =~= want);
                },
                Err(_) => {},
            },
            Err(_) => {},
        }
        add_line(
            &mut lines,
            self.numeric("315", cat2(target.as_str(), " :End of /WHO list").as_str()),
        );
        Step::reply(lines)
    }

    fn trust_word(&self, profile: &IdentityService, id: &IdentityId) -> (r: &'static str)
        requires
            profile.wf(),
        ensures
            r@ == trust_text(self@, profile@, *id),
    {
        if id.same(&self.me) {
            return "self";
        }
        match profile.trust_of(id) {
            Some(TrustLevel::Verified { .. }) => "verified",
            Some(TrustLevel::TofuPinned { .. }) => "tofu-pinned",
            Some(TrustLevel::Blocked) => "blocked",
            Some(TrustLevel::Unverified) => "UNVERIFIED",
            None => "UNVERIFIED",
        }
    }

    fn handle_whois(&self, profile: &IdentityService, m: &IrcMessage) -> (r: Step)
        requires
            profile.wf(),
        ensures
            r.is(whois_step(self@, profile@, m@), self@),
    {
        let target: &String = match param_at(m, 0) {
            Some(target) => target,
            None => {
                return Step::reply(one_line(self.numeric("431", ":No nickname given")));
            },
        };
        let who: Option<IdentityId> = if same_ignoring_case(
            target.as_str(),
            self.my_nick().as_str(),
        ) {
            Some(self.me)
        } else {
            resolve_target(profile, target.as_str())
        };
        let id: IdentityId = match who {
            Some(id) => id,
            None => {
                let line: String = self.numeric(
                    "401",
                    cat2(target.as_str(), " :No such nick").as_str(),
                );
                return Step::reply(one_line(line));
            },
        };
        let user: String = cat5(
            target.as_str(),
            " ",
            short_id(&id).as_str(),
            " mikall * :",
            identity_hex(&id).as_str(),
        );
        let mut lines: Vec<String> = one_line(self.numeric("311", user.as_str()));
        let fingerprint: Option<Fingerprint> = if id.same(&self.me) {
            Some(profile.fingerprint())
        } else {
            profile.fingerprint_of_contact(&id)
        };
        match fingerprint {
            Some(fp) => {
                let shown: String = cat6(
                    target.as_str(),
                    " :fingerprint ",
                    fp.display_groups().as_str(),
                    " (",
                    self.trust_word(profile, &id),
                    ")",
                );
                add_line(&mut lines, self.numeric("320", shown.as_str()));
            },
            None => {},
        }
        add_line(
            &mut lines,
            self.numeric("318", cat2(target.as_str(), " :End of /WHOIS list").as_str()),
        );
        Step::reply(lines)
    }

    fn handle_away(&self, m: &IrcMessage) -> (r: Step)
        ensures
            r.is(away_step(self@, m@), self@),
    {
        let away: Option<String> = match param_at(m, 0) {
            Some(text) => if text.as_str().is_empty() {
                None
            } else {
                Some(text.clone())
            },
            None => None,
        };
        Step::asking(Ask::Away(away))
    }

    fn handle_mode(&self, profile: &IdentityService, m: &IrcMessage) -> (r: Step)
        requires
            profile.wf(),
        ensures
            r.is(mode_step(self@, profile@, m@), self@),
    {
        let target: &String = match param_at(m, 0) {
            Some(target) => target,
            None => {
                return Step::reply(one_line(self.numeric("461", "MODE :Not enough parameters")));
            },
        };
        let name: ChannelName = match ChannelName::parse(target.as_str()) {
            Ok(name) => name,
            Err(_) => {
                return Step::reply(no_lines());
            },
        };
        match (param_at(m, 1), param_at(m, 2)) {
            (None, _) => Step::reply(
                one_line(self.numeric("324", cat2(name.as_str(), " +nt").as_str())),
            ),
            (Some(mode), Some(arg)) => {
                let grants: bool = same_text(mode.as_str(), "+o");
                if grants || same_text(mode.as_str(), "-o") {
                    match resolve_target(profile, arg.as_str()) {
                        None => Step::reply(
                            one_line(
                                self.numeric("401", cat2(arg.as_str(), " :No such nick").as_str()),
                            ),
                        ),
                        Some(who) => {
                            let role: Role = if grants {
                                Role::Op
                            } else {
                                Role::Member
                            };
                            Step::asking(
                                Ask::SetRole {
                                    name,
                                    target: target.clone(),
                                    mode: mode.clone(),
                                    arg: arg.clone(),
                                    who,
                                    role,
                                },
                            )
                        },
                    }
                } else if same_text(mode.as_str(), "+b") {
                    let ask: Ask = match resolve_target(profile, arg.as_str()) {
                        Some(who) => Ask::Block(who),
                        None => Ask::Nothing,
                    };
                    let notice: String = cat3(
                        ":mikall.local NOTICE ",
                        self.my_nick().as_str(),
                        " :decentralized network: bans are local blocklist entries on this node only",
                    );
                    Step { lines: one_line(notice), ask, open: true }
                } else {
                    Step::reply(no_lines())
                }
            },
            _ => Step::reply(no_lines()),
        }
    }

    /// A registered client's command.
    fn handle_registered(&mut self, chat: &ChatService, profile: &IdentityService, m: &IrcMessage) -> (r: Step)
        requires
            old(self).wf(),
            chat.wf(),
            profile.wf(),
        ensures
            final(self).wf(),
            r.is(registered_step(old(self)@, chat@, profile@, m@), final(self)@),
    {
        let command: &str = m.command.as_str();
        if same_text(command, "JOIN") {
            match param_at(m, 0) {
                None => Step::reply(one_line(self.numeric("461", "JOIN :Not enough parameters"))),
                Some(targets) => Step::asking(Ask::Join(split_at_every(targets.as_str(), ','))),
            }
        } else if same_text(command, "PART") {
            self.handle_part(m)
        } else if same_text(command, "PRIVMSG") || same_text(command, "NOTICE") {
            self.handle_privmsg(profile, m)
        } else if same_text(command, "TOPIC") {
            self.handle_topic(chat, m)
        } else if same_text(command, "NAMES") {
            self.handle_names(chat, profile, m)
        } else if same_text(command, "WHO") {
            self.handle_who(chat, profile, m)
        } else if same_text(command, "LIST") {
            Step::asking(Ask::List)
        } else if same_text(command, "WHOIS") {
            self.handle_whois(profile, m)
        } else if same_text(command, "AWAY") {
            self.handle_away(m)
        } else if same_text(command, "MODE") {
            self.handle_mode(profile, m)
        } else if same_text(command, "MOTD") {
            Step::reply(self.send_motd())
        } else {
            Step::reply(one_line(self.numeric("421", cat2(command, " :Unknown command").as_str())))
        }
    }

    /// A line from the client.
    pub fn handle_line(&mut self, chat: &ChatService, profile: &IdentityService, raw: &str) -> (r: Step)
        requires
            old(self).wf(),
            chat.wf(),
            profile.wf(),
        ensures
            final(self).wf(),
            r.is(line_step(old(self)@, chat@, profile@, raw@), final(self)@),
    {
        let m: IrcMessage = match parse_line(raw) {
            Some(m) => m,
            None => {
                return Step::reply(no_lines());
            },
        };
        let command: &str = m.command.as_str();
        if same_text(command, "PASS") {
            self.got_pass = match param_at(&m, 0) {
                Some(p) => Some(p.clone()),
                None => None,
            };
            Step::reply(no_lines())
        } else if same_text(command, "CAP") {
            self.handle_cap(&m)
        } else if same_text(command, "NICK") {
            let step: Step = self.handle_nick(&m);
            self.registering(step)
        } else if same_text(command, "USER") {
            self.got_user = true;
            self.registering(Step::reply(no_lines()))
        } else if same_text(command, "PING") {
            let token: &str = match param_at(&m, 0) {
                Some(token) => token.as_str(),
                None => "",
            };
            Step::reply(one_line(cat2(":mikall.local PONG mikall.local :", token)))
        } else if same_text(command, "QUIT") {
            Step { lines: no_lines(), ask: Ask::Nothing, open: false }
        } else if !self.registered {
            Step::reply(one_line(self.numeric("451", ":You have not registered")))
        } else {
            self.handle_registered(chat, profile, &m)
        }
    }
}

proof fn lemma_contains_push(s: Seq<Seq<char>>, x: Seq<char>, y: Seq<char>)
    ensures
        s.push(x).contains(y) <==> s.contains(y) || x == y,
{
    if s.contains(y) {
        let i = choose|i: int| 0 <= i < s.len() && s[i] == y;
        assert(s.push(x)[i] == y);
    }
    if x == y {
        assert(s.push(x)[s.len() as int] == y);
    }
    if s.push(x).contains(y) {
        let i = choose|i: int| 0 <= i < s.push(x).len() && s.push(x)[i] == y;
        if i < s.len() {
            assert(s[i] == y);
        }
    }
}

/// An optional error, without its reference.
pub open spec fn refused<E>(e: Option<&E>) -> Option<E> {
    match e {
        Some(e) => Some(*e),
        None => None,
    }
}

/// A body as lines from `nick` to `target`.
fn privmsg_lines(tag: &str, nick: &str, id: &IdentityId, target: &str, body: &MessageBody) -> (r: Vec<
    String,
>)
    ensures
        texts(r@) == text_chunks(body@).map_values(
            |line: Seq<char>|
                tag@ + ":"@ + prefix_text(nick@, *id) + " PRIVMSG "@ + target@ + " :"@ + line,
        ),
{
    let ghost f = |line: Seq<char>|
        tag@ + ":"@ + prefix_text(nick@, *id) + " PRIVMSG "@ + target@ + " :"@ + line;
    let lines: Vec<IrcSafeLine> = body.irc_lines();
    let who: String = prefix(nick, id);
    let ghost want = text_chunks(body@).map_values(f);
    let mut r: Vec<String> = no_lines();
    let mut i: usize = 0;
    assert(want.take(0) =~= Seq::<Seq<char>>::empty());
    while i < lines.len()
        invariant
            i <= lines@.len(),
            line_views(lines@) == text_chunks(body@),
            want == text_chunks(body@).map_values(f),
            f == |line: Seq<char>|
                tag@ + ":"@ + prefix_text(nick@, *id) + " PRIVMSG "@ + target@ + " :"@ + line,
            who@ == prefix_text(nick@, *id),
            texts(r@) == want.take(i as int),
        decreases lines@.len() - i,
    {
        let line: String = cat7(tag, ":", who.as_str(), " PRIVMSG ", target, " :", lines[i].as_str());
        assert(line_views(lines@)[i as int] == lines@[i as int]@);
        assert(line@ == want[i as int]);
        add_line(&mut r, line);
        assert(want.take(i + 1) =~= want.take(i as int).push(want[i as int]));
        i = i + 1;
    }
    assert(want.len() == lines@.len());
    assert(want.take(i as int) =~= want);
    r
}

impl Session {
    /// Whether `target` names a channel that can be joined; a line for the
    /// client, if it does not.
    pub fn join_target(&self, target: &str) -> (r: Result<ChannelName, String>)
        ensures
            match r {
                Ok(name) => channel_name_fault(target@) is None && name@ == lower_all(target@)
                    && name.wf(),
                Err(line) => channel_name_fault(target@) is Some && line@ == self@.no_such_channel(
                    target@,
                ),
            },
    {
        match ChannelName::parse(target) {
            Ok(name) => Ok(name),
            Err(_) => Err(self.no_such_channel(target)),
        }
    }

    fn replay_history(&self, chat: &ChatService, profile: &IdentityService, name: &ChannelName) -> (r: Vec<
        String,
    >)
        requires
            chat.wf(),
            profile.wf(),
        ensures
            texts(r@) == self@.history_lines(chat@, profile@, name@),
    {
        let mut r: Vec<String> = no_lines();
        match chat.history(name, profile) {
            Err(_) => r,
            Ok(shown) => {
                let ghost h = history_of(chat@.channel(name@).known);
                let ghost order = display_order(h);
                let start: usize = if shown.len() > 50 {
                    shown.len() - 50
                } else {
                    0
                };
                let ghost ids = order.skip(start as int);
                let mut i: usize = start;
                assert(rendered_ids(shown@).len() == shown@.len());
                assert(ids.take(0) =~= Seq::<MessageId>::empty());
                while i < shown.len()
                    invariant
                        start <= i <= shown@.len(),
                        order.len() == shown@.len(),
                        rendered_ids(shown@) == order,
                        ids == order.skip(start as int),
                        profile.wf(),
                        forall|j: int|
                            0 <= j < shown@.len() ==> (#[trigger] shown@[j]).shows(
                                h[shown@[j].id],
                                profile@,
                            ),
                        texts(r@) == self@.replayed(h, profile@, name@, ids.take(i - start)),
                    decreases shown@.len() - i,
                {
                    let message: &RenderedMessage = &shown[i];
                    proof {
                        assert(rendered_ids(shown@)[i as int] == message.id);
                        assert(ids.take(i + 1 - start).drop_last() =~= ids.take(i - start));
                        assert(ids.take(i + 1 - start).last() == message.id);
                        assert(shown@[i as int].shows(h[message.id], profile@));
                    }
                    let nick: String = nick_string(&message.author_nick, &message.author);
                    let tag: String = cat3("@time=", server_time(message.ts_hint_ms).as_str(), " ");
                    let more: Vec<String> = privmsg_lines(
                        tag.as_str(),
                        nick.as_str(),
                        &message.author,
                        name.as_str(),
                        &message.body,
                    );
                    add_lines(&mut r, more);
                    i = i + 1;
                }
                assert(ids.take(i - start) =~= ids);
                r
            },
        }
    }

    /// The outcome of joining `name`.
    pub fn join_done(
        &mut self,
        chat: &ChatService,
        profile: &IdentityService,
        name: ChannelName,
        target: &str,
        refusal: Option<&ChatError>,
    ) -> (r: Vec<String>)
        requires
            old(self).wf(),
            chat.wf(),
            profile.wf(),
        ensures
            final(self).wf(),
            final(self)@ == (SessionView {
                joined: if refusal is None {
                    old(self)@.joined.insert(name@)
                } else {
                    old(self)@.joined
                },
                ..old(self)@
            }),
            texts(r@) == join_lines(
                old(self)@,
                chat@,
                profile@,
                name@,
                target@,
                refused(refusal),
            ),
    {
        match refusal {
            Some(e) => one_line(
                self.numeric("403", cat3(target, " :Cannot join: ", e.text().as_str()).as_str()),
            ),
            None => {
                let mut r: Vec<String> = one_line(self.own(cat2(" JOIN ", name.as_str()).as_str()));
                add_line(&mut r, self.send_topic_numeric(chat, &name));
                assert(texts(r@) =~= seq![
                    self@.own(" JOIN "@ + name@),
                    self@.topic_line(chat@, name@),
                ]);
                add_lines(&mut r, self.send_names(chat, profile, &name));
                if self.server_time {
                    add_lines(&mut r, self.replay_history(chat, profile, &name));
                } else {
                    assert(texts(r@) + Seq::<Seq<char>>::empty() =~= texts(r@));
                }
                self.joined.insert(name);
                r
            },
        }
    }

    /// The outcome of a message to a channel.
    pub fn post_done(&self, target: &str, notice: bool, refusal: Option<&ChatError>) -> (r: Vec<String>)
        ensures
            texts(r@) == post_lines(self@, target@, notice, refused(refusal)),
    {
        match refusal {
            None => no_lines(),
            Some(e) => {
                if notice {
                    no_lines()
                } else {
                    match e {
                        ChatError::Body(_) => one_line(self.numeric("412", ":No text to send")),
                        _ => one_line(
                            self.numeric(
                                "404",
                                cat3(target, " :Cannot send: ", e.text().as_str()).as_str(),
                            ),
                        ),
                    }
                }
            },
        }
    }

    /// The outcome of a direct message.
    pub fn dm_done(&self, target: &str, notice: bool, failed: bool) -> (r: Vec<String>)
        ensures
            texts(r@) == if failed && !notice {
                seq![self@.numeric("401"@, target@ + " :Cannot reach peer"@)]
            } else {
                seq![]
            },
    {
        if failed && !notice {
            one_line(self.numeric("401", cat2(target, " :Cannot reach peer").as_str()))
        } else {
            no_lines()
        }
    }

    /// The outcome of setting a topic.
    pub fn topic_done(
        &self,
        name: &ChannelName,
        target: &str,
        topic: &str,
        refusal: Option<&ChatError>,
    ) -> (r: Vec<String>)
        ensures
            texts(r@) == topic_lines(self@, name@, target@, topic@, refused(refusal)),
    {
        match refusal {
            None => one_line(self.own(cat4(" TOPIC ", name.as_str(), " :", topic).as_str())),
            Some(ChatError::Channel(ChannelError::NotAnOperator)) => one_line(
                self.numeric("482", cat2(target, " :You're not channel operator").as_str()),
            ),
            Some(e) => one_line(
                self.numeric("403", cat3(target, " :Cannot set topic: ", e.text().as_str()).as_str()),
            ),
        }
    }

    /// The outcome of changing an operator.
    pub fn role_done(
        &self,
        name: &ChannelName,
        target: &str,
        mode: &str,
        arg: &str,
        refusal: Option<&ChatError>,
    ) -> (r: Vec<String>)
        ensures
            texts(r@) == role_lines(self@, name@, target@, mode@, arg@, refused(refusal)),
    {
        match refusal {
            None => one_line(
                self.own(cat6(" MODE ", name.as_str(), " ", mode, " ", arg).as_str()),
            ),
            Some(ChatError::Channel(ChannelError::NotFounder)) => one_line(
                self.numeric("482", cat2(target, " :Only the founder can change ops").as_str()),
            ),
            Some(e) => one_line(
                self.numeric("482", cat3(target, " :", e.text().as_str()).as_str()),
            ),
        }
    }

    /// The outcome of going away or coming back.
    pub fn away_done(&self, away: bool, refusal: Option<&PresenceError>) -> (r: Vec<String>)
        ensures
            texts(r@) == away_lines(self@, away, refused(refusal)),
    {
        match refusal {
            None => if away {
                one_line(self.numeric("306", ":You have been marked as being away"))
            } else {
                one_line(self.numeric("305", ":You are no longer marked as being away"))
            },
            Some(e) => one_line(self.numeric("461", cat2("AWAY :", e.text().as_str()).as_str())),
        }
    }

    /// The channels that the directory knows; none, if it could not be asked.
    pub fn list_done(&self, records: &Vec<ChannelRecord>) -> (r: Vec<String>)
        ensures
            texts(r@) == list_lines(self@, records@),
    {
        let mut r: Vec<String> = one_line(self.numeric("321", "Channel :Users Name"));
        let ghost f = |r: ChannelRecord| self@.numeric("322"@, r.name@ + " 0 :"@);
        let ghost want = records@.map_values(f);
        let ghost first = texts(r@);
        let mut i: usize = 0;
        assert(first + want.take(0) =~= first);
        while i < records.len()
            invariant
                i <= records@.len(),
                want == records@.map_values(f),
                f == |r: ChannelRecord| self@.numeric("322"@, r.name@ + " 0 :"@),
                texts(r@) == first + want.take(i as int),
            decreases records@.len() - i,
        {
            let line: String = self.numeric(
                "322",
                cat2(records[i].name.as_str(), " 0 :").as_str(),
            );
            assert(line@ == want[i as int]);
            add_line(&mut r, line);
            assert(want.take(i + 1) =~= want.take(i as int).push(want[i as int]));
            assert(texts(r@) =~= first + want.take(i + 1));
            i = i + 1;
        }
        assert(want.take(i as int) =~= want);
        add_line(&mut r, self.numeric("323", ":End of /LIST"));
        r
    }

    fn time_tag(&self, ts_ms: u64) -> (r: String)
        ensures
            r@ == self@.time_tag(ts_ms),
    {
        if self.server_time {
            cat3("@time=", server_time(ts_ms).as_str(), " ")
        } else {
            String::new()
        }
    }

    /// The joined channel that an event is about, unless it is our own doing.
    fn joined_name(&self, chat: &ChatService, channel: &crate::messaging::ChannelId, who: &IdentityId) -> (r: Option<
        ChannelName,
    >)
        requires
            chat.wf(),
        ensures
            match r {
                Some(name) => heard_on(self@, chat@, *channel, *who) == Some(name@),
                None => heard_on(self@, chat@, *channel, *who) is None,
            },
    {
        if who.same(&self.me) {
            return None;
        }
        match chat.name_of(channel) {
            Some(name) => if self.joined.contains(&name) {
                Some(name)
            } else {
                None
            },
            None => None,
        }
    }

    fn doing(&self, profile: &IdentityService, who: &IdentityId, rest: &str) -> (r: String)
        requires
            profile.wf(),
        ensures
            r@ == doing(profile@, *who, rest@),
    {
        let nick: String = nick_string(&profile.nickname_of(who), who);
        cat3(":", prefix(nick.as_str(), who).as_str(), rest)
    }

    fn handle_messaging_event(
        &self,
        chat: &ChatService,
        profile: &IdentityService,
        event: &MessagingEvent,
    ) -> (r: Vec<String>)
        requires
            chat.wf(),
            profile.wf(),
        ensures
            texts(r@) == messaging_lines(self@, chat@, profile@, event@),
    {
        match event {
            MessagingEvent::ChannelJoined { channel, who } => match self.joined_name(
                chat,
                channel,
                who,
            ) {
                Some(name) => one_line(
                    self.doing(profile, who, cat2(" JOIN ", name.as_str()).as_str()),
                ),
                None => no_lines(),
            },
            MessagingEvent::ChannelLeft { channel, who } => match self.joined_name(
                chat,
                channel,
                who,
            ) {
                Some(name) => one_line(
                    self.doing(profile, who, cat2(" PART ", name.as_str()).as_str()),
                ),
                None => no_lines(),
            },
            MessagingEvent::TopicChanged { channel, by, topic } => match self.joined_name(
                chat,
                channel,
                by,
            ) {
                Some(name) => one_line(
                    self.doing(
                        profile,
                        by,
                        cat4(" TOPIC ", name.as_str(), " :", topic.as_str()).as_str(),
                    ),
                ),
                None => no_lines(),
            },
            _ => no_lines(),
        }
    }

    /// Something happened on the node.
    pub fn handle_event(&self, chat: &ChatService, profile: &IdentityService, event: &AppEvent) -> (r: Vec<
        String,
    >)
        requires
            chat.wf(),
            profile.wf(),
        ensures
            texts(r@) == event_lines(self@, chat@, profile@, event@),
    {
        if !self.registered {
            return no_lines();
        }
        match event {
            AppEvent::ChannelMessage { channel, author, author_nick, body, ts_hint_ms, .. } => {
                if author.same(&self.me) || !self.joined.contains(channel) {
                    return no_lines();
                }
                let nick: String = nick_string(author_nick, author);
                privmsg_lines(
                    self.time_tag(*ts_hint_ms).as_str(),
                    nick.as_str(),
                    author,
                    channel.as_str(),
                    body,
                )
            },
            AppEvent::DirectMessage { from, from_nick, body, ts_hint_ms, .. } => {
                if from.same(&self.me) {
                    return no_lines();
                }
                let nick: String = nick_string(from_nick, from);
                privmsg_lines(
                    self.time_tag(*ts_hint_ms).as_str(),
                    nick.as_str(),
                    from,
                    self.my_nick().as_str(),
                    body,
                )
            },
            AppEvent::Domain(DomainEvent::Messaging(e)) => self.handle_messaging_event(
                chat,
                profile,
                e,
            ),
            AppEvent::Domain(DomainEvent::Identity(IdentityEvent::ContactKeyChanged { id, .. })) => one_line(
                cat5(
                    ":mikall.local NOTICE ",
                    self.my_nick().as_str(),
                    " :WARNING: the key for ",
                    short_id(id).as_str(),
                    " CHANGED. Verify the new fingerprint out of band before trusting messages.",
                ),
            ),
            AppEvent::TransferSaved { path, .. } => one_line(
                cat4(
                    ":mikall.local NOTICE ",
                    self.my_nick().as_str(),
                    " :file transfer complete, saved to ",
                    path.as_str(),
                ),
            ),
            AppEvent::Domain(_) => no_lines(),
        }
    }
}

/// A client that has not registered is told nothing of what happens on the
/// node.
pub proof fn law_strangers_hear_nothing(
    s: SessionView,
    chat: ChatView,
    profile: ProfileView,
    event: AppEventView,
)
    requires
        !s.registered,
    ensures
        event_lines(s, chat, profile, event).len() == 0,
{
}

/// With a wrong password, no line of a client but another password lets it in,
/// and none asks anything of the node but a nickname.
pub proof fn law_wrong_password_keeps_out(
    s: SessionView,
    chat: ChatView,
    profile: ProfileView,
    raw: Seq<char>,
)
    requires
        !s.registered,
        !s.admitted(),
        parsed(raw) matches Some(m) ==> m.command != "PASS"@,
    ensures
        ({
            let step = line_step(s, chat, profile, raw);
            &&& !step.next.registered
            &&& !step.next.admitted()
            &&& step.ask is Nothing || step.ask is SetNickname
        }),
{
}

/// A notice is never answered: neither when it is read, nor whatever becomes of
/// what it asks.
pub proof fn law_notices_are_not_answered(
    s: SessionView,
    chat: ChatView,
    profile: ProfileView,
    m: IrcMessageView,
    target: Seq<char>,
    refusal: Option<ChatError>,
)
    requires
        s.registered,
        m.command == "NOTICE"@,
    ensures
        ({
            let step = message_step(s, chat, profile, m);
            &&& step.lines.len() == 0
            &&& match step.ask {
                AskView::Nothing => true,
                AskView::Post { notice, .. } => notice && post_lines(
                    s,
                    target,
                    notice,
                    refusal,
                ).len() == 0,
                AskView::Dm { notice, .. } => notice,
                _ => false,
            }
        }),
{
    reveal_strlit("NOTICE");
    reveal_strlit("PASS");
    reveal_strlit("CAP");
    reveal_strlit("NICK");
    reveal_strlit("USER");
    reveal_strlit("PING");
    reveal_strlit("QUIT");
    reveal_strlit("JOIN");
    reveal_strlit("PART");
    assert("NOTICE"@.len() == 6);
    assert("PASS"@.len() == 4 && "CAP"@.len() == 3 && "NICK"@.len() == 4 && "USER"@.len() == 4);
    assert("PING"@.len() == 4 && "QUIT"@.len() == 4 && "JOIN"@.len() == 4 && "PART"@.len() == 4);
}

/// The commands are told apart by their lengths and their first letters.
proof fn lemma_commands()
    ensures
        "PASS"@.len() == 4 && "PASS"@[0] == 'P' && "PASS"@[1] == 'A' && "PASS"@[2] == 'S' && "PASS"@[3] == 'S',
        "CAP"@.len() == 3 && "CAP"@[0] == 'C' && "CAP"@[1] == 'A' && "CAP"@[2] == 'P',
        "NICK"@.len() == 4 && "NICK"@[0] == 'N' && "NICK"@[1] == 'I' && "NICK"@[2] == 'C' && "NICK"@[3] == 'K',
        "USER"@.len() == 4 && "USER"@[0] == 'U' && "USER"@[1] == 'S' && "USER"@[2] == 'E' && "USER"@[3] == 'R',
        "PING"@.len() == 4 && "PING"@[0] == 'P' && "PING"@[1] == 'I' && "PING"@[2] == 'N' && "PING"@[3] == 'G',
        "QUIT"@.len() == 4 && "QUIT"@[0] == 'Q' && "QUIT"@[1] == 'U' && "QUIT"@[2] == 'I' && "QUIT"@[3] == 'T',
        "JOIN"@.len() == 4 && "JOIN"@[0] == 'J' && "JOIN"@[1] == 'O' && "JOIN"@[2] == 'I' && "JOIN"@[3] == 'N',
        "PART"@.len() == 4 && "PART"@[0] == 'P' && "PART"@[1] == 'A' && "PART"@[2] == 'R' && "PART"@[3] == 'T',
        "PRIVMSG"@.len() == 7 && "PRIVMSG"@[0] == 'P' && "PRIVMSG"@[1] == 'R' && "PRIVMSG"@[2] == 'I' && "PRIVMSG"@[3] == 'V',
        "NOTICE"@.len() == 6 && "NOTICE"@[0] == 'N' && "NOTICE"@[1] == 'O' && "NOTICE"@[2] == 'T' && "NOTICE"@[3] == 'I',
        "TOPIC"@.len() == 5 && "TOPIC"@[0] == 'T' && "TOPIC"@[1] == 'O' && "TOPIC"@[2] == 'P' && "TOPIC"@[3] == 'I',
        "NAMES"@.len() == 5 && "NAMES"@[0] == 'N' && "NAMES"@[1] == 'A' && "NAMES"@[2] == 'M' && "NAMES"@[3] == 'E',
        "WHO"@.len() == 3 && "WHO"@[0] == 'W' && "WHO"@[1] == 'H' && "WHO"@[2] == 'O',
        "LIST"@.len() == 4 && "LIST"@[0] == 'L' && "LIST"@[1] == 'I' && "LIST"@[2] == 'S' && "LIST"@[3] == 'T',
        "WHOIS"@.len() == 5 && "WHOIS"@[0] == 'W' && "WHOIS"@[1] == 'H' && "WHOIS"@[2] == 'O' && "WHOIS"@[3] == 'I',
        "AWAY"@.len() == 4 && "AWAY"@[0] == 'A' && "AWAY"@[1] == 'W' && "AWAY"@[2] == 'A' && "AWAY"@[3] == 'Y',
        "MODE"@.len() == 4 && "MODE"@[0] == 'M' && "MODE"@[1] == 'O' && "MODE"@[2] == 'D' && "MODE"@[3] == 'E',
        "MOTD"@.len() == 4 && "MOTD"@[0] == 'M' && "MOTD"@[1] == 'O' && "MOTD"@[2] == 'T' && "MOTD"@[3] == 'D',
{
    reveal_strlit("PASS");
    reveal_strlit("CAP");
    reveal_strlit("NICK");
    reveal_strlit("USER");
    reveal_strlit("PING");
    reveal_strlit("QUIT");
    reveal_strlit("JOIN");
    reveal_strlit("PART");
    reveal_strlit("PRIVMSG");
    reveal_strlit("NOTICE");
    reveal_strlit("TOPIC");
    reveal_strlit("NAMES");
    reveal_strlit("WHO");
    reveal_strlit("LIST");
    reveal_strlit("WHOIS");
    reveal_strlit("AWAY");
    reveal_strlit("MODE");
    reveal_strlit("MOTD");
}

/// A direct message is heard. A registered client is told every line of a message
/// that somebody else wrote to it, in order, as from the writer, under the nickname
/// that they announced or else their short id, and to its own nickname; with the
/// time in front if it takes times.
pub proof fn law_direct_messages_are_heard(
    s: SessionView,
    chat: ChatView,
    profile: ProfileView,
    from: IdentityId,
    from_nick: Option<Seq<char>>,
    message: MessageId,
    body: Seq<char>,
    ts_hint_ms: u64,
    i: int,
)
    requires
        s.registered,
        from != s.me,
        0 <= i < text_chunks(body).len(),
    ensures
        ({
            let told = event_lines(
                s,
                chat,
                profile,
                AppEventView::DirectMessage { from, from_nick, message, body, ts_hint_ms },
            );
            let tag = if s.server_time {
                "@time="@ + time_text(ts_hint_ms) + " "@
            } else {
                Seq::<char>::empty()
            };
            let writer = match from_nick {
                Some(n) => n,
                None => hex_text(from@.take(6)),
            };
            let reader = match s.nick {
                Some(n) => n,
                None => hex_text(s.me@.take(6)),
            };
            &&& told.len() == text_chunks(body).len()
            &&& told[i] == tag + ":"@ + writer + "!"@ + hex_text(from@.take(6)) + "@mikall"@
                + " PRIVMSG "@ + reader + " :"@ + text_chunks(body)[i]
        }),
{
    let tag = s.time_tag(ts_hint_ms);
    let writer = label(from_nick, from);
    let short = hex_text(from@.take(6));
    let line = text_chunks(body)[i];
    assert(tag + ":"@ + (writer + "!"@ + short + "@mikall"@) + " PRIVMSG "@ + s.my_nick() + " :"@
        + line =~= tag + ":"@ + writer + "!"@ + short + "@mikall"@ + " PRIVMSG "@ + s.my_nick()
        + " :"@ + line);
}

/// A message on a channel is heard by whoever is on it. A registered client that
/// joined is told every line that somebody else wrote there, in order, as from the
/// writer, under their nickname or else their short id; with the time in front if it
/// takes times.
pub proof fn law_channel_messages_are_heard(
    s: SessionView,
    chat: ChatView,
    profile: ProfileView,
    channel: Seq<char>,
    author: IdentityId,
    author_nick: Option<Seq<char>>,
    message: MessageId,
    body: Seq<char>,
    ts_hint_ms: u64,
    i: int,
)
    requires
        s.registered,
        author != s.me,
        s.joined.contains(channel),
        0 <= i < text_chunks(body).len(),
    ensures
        ({
            let told = event_lines(
                s,
                chat,
                profile,
                AppEventView::ChannelMessage {
                    channel,
                    author,
                    author_nick,
                    message,
                    body,
                    ts_hint_ms,
                },
            );
            let tag = if s.server_time {
                "@time="@ + time_text(ts_hint_ms) + " "@
            } else {
                Seq::<char>::empty()
            };
            let writer = match author_nick {
                Some(n) => n,
                None => hex_text(author@.take(6)),
            };
            &&& told.len() == text_chunks(body).len()
            &&& told[i] == tag + ":"@ + writer + "!"@ + hex_text(author@.take(6)) + "@mikall"@
                + " PRIVMSG "@ + channel + " :"@ + text_chunks(body)[i]
        }),
{
    let tag = s.time_tag(ts_hint_ms);
    let writer = label(author_nick, author);
    let short = hex_text(author@.take(6));
    let line = text_chunks(body)[i];
    assert(tag + ":"@ + (writer + "!"@ + short + "@mikall"@) + " PRIVMSG "@ + channel + " :"@ + line
        =~= tag + ":"@ + writer + "!"@ + short + "@mikall"@ + " PRIVMSG "@ + channel + " :"@ + line);
}

/// Nobody hears themselves, nor a channel that they are not on.
pub proof fn law_nobody_hears_themselves(
    s: SessionView,
    chat: ChatView,
    profile: ProfileView,
    channel: Seq<char>,
    author: IdentityId,
    nick: Option<Seq<char>>,
    message: MessageId,
    body: Seq<char>,
    ts_hint_ms: u64,
)
    ensures
        author == s.me || !s.joined.contains(channel) ==> event_lines(
            s,
            chat,
            profile,
            AppEventView::ChannelMessage {
                channel,
                author,
                author_nick: nick,
                message,
                body,
                ts_hint_ms,
            },
        ).len() == 0,
        author == s.me ==> event_lines(
            s,
            chat,
            profile,
            AppEventView::DirectMessage { from: author, from_nick: nick, message, body, ts_hint_ms },
        ).len() == 0,
{
}

/// Who comes and goes, and what the topic becomes, is heard on a channel: a
/// registered client on it is told one line of each, under the nickname of whoever
/// did it, unless it did it itself.
pub proof fn law_comings_and_goings_are_heard(
    s: SessionView,
    chat: ChatView,
    profile: ProfileView,
    channel: crate::messaging::ChannelId,
    name: Seq<char>,
    who: IdentityId,
    topic: Seq<char>,
)
    requires
        s.registered,
        chat.name_of(channel) == Some(name),
        s.joined.contains(name),
    ensures
        ({
            let nick = match profile.nick_of(who) {
                Some(n) => n,
                None => hex_text(who@.take(6)),
            };
            let doer = ":"@ + (nick + "!"@ + hex_text(who@.take(6)) + "@mikall"@);
            let joined = event_lines(
                s,
                chat,
                profile,
                AppEventView::Domain(
                    DomainEventView::Messaging(MessagingEventView::ChannelJoined { channel, who }),
                ),
            );
            let left = event_lines(
                s,
                chat,
                profile,
                AppEventView::Domain(
                    DomainEventView::Messaging(MessagingEventView::ChannelLeft { channel, who }),
                ),
            );
            let changed = event_lines(
                s,
                chat,
                profile,
                AppEventView::Domain(
                    DomainEventView::Messaging(
                        MessagingEventView::TopicChanged { channel, by: who, topic },
                    ),
                ),
            );
            if who == s.me {
                joined.len() == 0 && left.len() == 0 && changed.len() == 0
            } else {
                &&& joined == seq![doer + (" JOIN "@ + name)]
                &&& left == seq![doer + (" PART "@ + name)]
                &&& changed == seq![doer + (" TOPIC "@ + name + " :"@ + topic)]
            }
        }),
{
}

/// A key that changed is never passed over: every registered client is warned, in one
/// line that names whose it is. A saved file is told with its place.
pub proof fn law_alarms_and_files_are_told(
    s: SessionView,
    chat: ChatView,
    profile: ProfileView,
    event: IdentityEvent,
    transfer: crate::transfer::TransferId,
    path: Seq<char>,
)
    requires
        s.registered,
        event is ContactKeyChanged,
    ensures
        event_lines(s, chat, profile, AppEventView::Domain(DomainEventView::Identity(event))).len()
            == 1,
        ({
            let line = event_lines(
                s,
                chat,
                profile,
                AppEventView::Domain(DomainEventView::Identity(event)),
            )[0];
            let head = ":mikall.local NOTICE "@ + s.my_nick() + " :WARNING: the key for "@
                + hex_text(event->ContactKeyChanged_id@.take(6));
            head.is_prefix_of(line)
        }),
        event_lines(s, chat, profile, AppEventView::TransferSaved { transfer, path }) == seq![
            ":mikall.local NOTICE "@ + s.my_nick() + " :file transfer complete, saved to "@ + path,
        ],
{
    let line = event_lines(
        s,
        chat,
        profile,
        AppEventView::Domain(DomainEventView::Identity(event)),
    )[0];
    let head = ":mikall.local NOTICE "@ + s.my_nick() + " :WARNING: the key for "@ + hex_text(
        event->ContactKeyChanged_id@.take(6),
    );
    assert(head =~= line.subrange(0, head.len() as int));
}

/// What a client says on a channel that it is on is posted there, under the name in
/// small letters, text and all; a notice likewise.
pub proof fn law_words_on_a_channel_are_posted(
    s: SessionView,
    chat: ChatView,
    profile: ProfileView,
    m: IrcMessageView,
)
    requires
        s.registered,
        m.command == "PRIVMSG"@ || m.command == "NOTICE"@,
        m.params.len() >= 2,
        m.params[0].len() > 0,
        m.params[0][0] == '#',
        channel_name_fault(m.params[0]) is None,
        s.joined.contains(lower_all(m.params[0])),
        !("\u{1}ACTION "@.is_prefix_of(m.params[1])),
    ensures
        ({
            let step = message_step(s, chat, profile, m);
            &&& step.ask == (AskView::Post {
                name: lower_all(m.params[0]),
                target: m.params[0],
                text: m.params[1],
                notice: m.command == "NOTICE"@,
            })
            &&& step.lines.len() == 0
            &&& step.next == s
            &&& step.open
        }),
{
    lemma_commands();
}

/// What a client says to somebody whom its target means goes to them as a direct
/// message, text and all; a notice likewise.
pub proof fn law_words_to_a_peer_are_sent(
    s: SessionView,
    chat: ChatView,
    profile: ProfileView,
    m: IrcMessageView,
    to: IdentityId,
)
    requires
        s.registered,
        m.command == "PRIVMSG"@ || m.command == "NOTICE"@,
        m.params.len() >= 2,
        m.params[0].len() == 0 || m.params[0][0] != '#',
        resolved(profile, m.params[0], Some(to)),
        !("\u{1}ACTION "@.is_prefix_of(m.params[1])),
    ensures
        ({
            let step = message_step(s, chat, profile, m);
            &&& step.ask == (AskView::Dm {
                to,
                target: m.params[0],
                text: m.params[1],
                notice: m.command == "NOTICE"@,
            })
            &&& step.lines.len() == 0
            &&& step.next == s
            &&& step.open
        }),
{
    lemma_commands();
    lemma_meant(profile, m.params[0], Some(to));
}

/// An action is spoken in the third person: its words, without the marks, behind
/// `/me`.
pub proof fn law_actions_keep_their_words(words: Seq<char>)
    requires
        words.len() > 0,
        words.last() != '\u{1}',
    ensures
        spoken("\u{1}ACTION "@ + words) == "/me "@ + words,
        spoken(("\u{1}ACTION "@ + words).push('\u{1}')) == "/me "@ + words,
{
    let mark = "\u{1}ACTION "@;
    let bare = mark + words;
    let closed = bare.push('\u{1}');
    assert(mark =~= bare.subrange(0, mark.len() as int));
    assert(mark =~= closed.subrange(0, mark.len() as int));
    assert(bare.skip(mark.len() as int) =~= words);
    assert(closed.skip(mark.len() as int) =~= words.push('\u{1}'));
    assert(words.push('\u{1}').drop_last() =~= words);
    assert(without_trailing(words, '\u{1}') == words);
    assert(without_trailing(words.push('\u{1}'), '\u{1}') == without_trailing(words, '\u{1}'));
}

/// Whoever means somebody by their identity, written out, means them.
pub proof fn law_an_identity_written_out_is_meant(profile: ProfileView, id: IdentityId)
    ensures
        meant(profile, hex_text(id@)) == Some(id),
{
    super::words::law_identity_hex_reads_back(id);
    lemma_meant(profile, hex_text(id@), Some(id));
}

/// A nickname that is no identity written out means whoever goes by it.
pub proof fn law_a_nickname_means_its_owner(profile: ProfileView, target: Seq<char>)
    requires
        !is_identity_hex(target),
    ensures
        meant(profile, target) == profile.by_nickname(target),
{
    lemma_meant(profile, target, profile.by_nickname(target));
}

/// A message that cannot be delivered is answered, unless it is a notice: the client
/// is told that it is not on the channel, that there is no such channel, that there
/// is no such nick, or that it named nobody. Nothing is asked of the node.
pub proof fn law_lost_words_are_answered(
    s: SessionView,
    chat: ChatView,
    profile: ProfileView,
    m: IrcMessageView,
)
    requires
        s.registered,
        m.command == "PRIVMSG"@,
        m.params.len() < 2 || (m.params[0].len() > 0 && m.params[0][0] == '#' && (
        channel_name_fault(m.params[0]) is Some || !s.joined.contains(lower_all(m.params[0]))))
            || ((m.params[0].len() == 0 || m.params[0][0] != '#') && resolved(
            profile,
            m.params[0],
            None,
        )),
    ensures
        ({
            let step = message_step(s, chat, profile, m);
            &&& step.ask is Nothing
            &&& step.next == s
            &&& step.open
            &&& step.lines == seq![
                if m.params.len() < 2 {
                    s.numeric("411"@, ":No recipient given (PRIVMSG)"@)
                } else if m.params[0].len() == 0 || m.params[0][0] != '#' {
                    s.numeric("401"@, m.params[0] + " :No such nick"@)
                } else if channel_name_fault(m.params[0]) is Some {
                    s.numeric("403"@, m.params[0] + " :No such channel"@)
                } else {
                    s.numeric("442"@, m.params[0] + " :You're not on that channel"@)
                },
            ]
        }),
{
    lemma_commands();
    if m.params.len() >= 2 && (m.params[0].len() == 0 || m.params[0][0] != '#') {
        lemma_meant(profile, m.params[0], None);
    }
}

/// A client gets in: with a nickname and a user, with nothing left to negotiate, and
/// with the right password if one is asked for, the line that supplies what was
/// missing registers it, and it is welcomed.
pub proof fn law_a_client_gets_in(
    s: SessionView,
    chat: ChatView,
    profile: ProfileView,
    m: IrcMessageView,
)
    requires
        !s.registered,
        !s.cap_negotiating,
        s.password is None || s.password == s.got_pass,
        (m.command == "NICK"@ && m.params.len() >= 1 && nickname_fault(m.params[0]) is None
            && s.got_user) || (m.command == "USER"@ && s.nick is Some),
    ensures
        ({
            let step = message_step(s, chat, profile, m);
            let nick = if m.command == "NICK"@ {
                m.params[0]
            } else {
                s.nick->0
            };
            &&& step.next.registered
            &&& step.next.nick == Some(nick)
            &&& step.next.got_user
            &&& step.next.joined == s.joined
            &&& step.open
            &&& step.lines.len() > 0
            &&& step.lines[0] == ":mikall.local "@ + "001"@ + " "@ + nick + " "@ + (
            ":Welcome to the mikall network "@ + nick)
            &&& m.command == "NICK"@ ==> step.ask == AskView::SetNickname(nick)
            &&& m.command == "USER"@ ==> step.ask is Nothing
        }),
{
    lemma_commands();
    let step = message_step(s, chat, profile, m);
    let next = if m.command == "NICK"@ {
        SessionView { nick: Some(m.params[0]), ..s }
    } else {
        SessionView { got_user: true, ..s }
    };
    assert(next.ready() && next.admitted());
    assert(step.lines =~= next.after_register().welcome());
}

/// Who lacks something is not let in: no nickname, no user, capabilities under
/// negotiation, or a wrong password, each keeps a client out.
pub proof fn law_nobody_gets_in_early(s: SessionView)
    requires
        !s.registered,
    ensures
        s.after_register().registered <==> {
            &&& s.nick is Some
            &&& s.got_user
            &&& !s.cap_negotiating
            &&& s.password is None || s.password == s.got_pass || (s.password == Some(""@)
                && s.got_pass is None)
        },
        s.after_register() == (SessionView { registered: s.after_register().registered, ..s }),
{
}

/// A client that has not registered can do nothing but register, ping and quit: any
/// other command is refused, and asks nothing of the node.
pub proof fn law_strangers_can_only_register(
    s: SessionView,
    chat: ChatView,
    profile: ProfileView,
    m: IrcMessageView,
)
    requires
        !s.registered,
        m.command != "PASS"@,
        m.command != "CAP"@,
        m.command != "NICK"@,
        m.command != "USER"@,
        m.command != "PING"@,
        m.command != "QUIT"@,
    ensures
        ({
            let step = message_step(s, chat, profile, m);
            &&& step.ask is Nothing
            &&& step.next == s
            &&& step.open
            &&& step.lines == seq![s.numeric("451"@, ":You have not registered"@)]
        }),
{
}

/// A ping is answered with its token, at any time, and nothing else follows from it.
pub proof fn law_pings_are_answered(
    s: SessionView,
    chat: ChatView,
    profile: ProfileView,
    m: IrcMessageView,
)
    requires
        m.command == "PING"@,
        m.params.len() >= 1,
    ensures
        ({
            let step = message_step(s, chat, profile, m);
            &&& step.lines == seq![":mikall.local PONG mikall.local :"@ + m.params[0]]
            &&& step.next == s
            &&& step.ask is Nothing
            &&& step.open
        }),
{
    lemma_commands();
}

/// A session ends by `QUIT`, and by no other line.
pub proof fn law_only_quit_ends_a_session(
    s: SessionView,
    chat: ChatView,
    profile: ProfileView,
    raw: Seq<char>,
)
    ensures
        !line_step(s, chat, profile, raw).open <==> (parsed(raw) matches Some(m) && m.command
            == "QUIT"@),
{
    lemma_commands();
}

/// A registered client stays so, whatever it says, and is on the channels that it was
/// on but for the one it parts from.
pub proof fn law_a_client_stays_in(
    s: SessionView,
    chat: ChatView,
    profile: ProfileView,
    m: IrcMessageView,
    name: Seq<char>,
)
    requires
        s.registered,
    ensures
        ({
            let step = message_step(s, chat, profile, m);
            &&& step.next.registered
            &&& step.next.me == s.me
            &&& step.next.password == s.password
            &&& step.next.nick != s.nick ==> m.command == "NICK"@
            &&& step.next.joined.contains(name) ==> s.joined.contains(name)
            &&& s.joined.contains(name) && !step.next.joined.contains(name) ==> m.command
                == "PART"@ && m.params.len() >= 1 && lower_all(m.params[0]) == name
        }),
{
}

/// A registered client can change its nickname: to any that one can have, which it is
/// told, under the old one, and which the node is asked to announce.
pub proof fn law_a_nickname_can_be_changed(
    s: SessionView,
    chat: ChatView,
    profile: ProfileView,
    m: IrcMessageView,
)
    requires
        s.registered,
        m.command == "NICK"@,
        m.params.len() >= 1,
    ensures
        ({
            let step = message_step(s, chat, profile, m);
            let old_nick = match s.nick {
                Some(n) => n,
                None => hex_text(s.me@.take(6)),
            };
            if nickname_fault(m.params[0]) is None {
                &&& step.next == (SessionView { nick: Some(m.params[0]), ..s })
                &&& step.ask == AskView::SetNickname(m.params[0])
                &&& step.lines == seq![
                    ":"@ + (old_nick + "!"@ + hex_text(s.me@.take(6)) + "@mikall"@) + (" NICK :"@
                        + m.params[0]),
                ]
            } else {
                &&& step.next == s
                &&& step.ask is Nothing
                &&& step.lines == seq![s.numeric("432"@, m.params[0] + " :Erroneous nickname"@)]
            }
        }),
{
    lemma_commands();
    let step = message_step(s, chat, profile, m);
    let before = nick_step(s, m);
    assert(before.lines + Seq::<Seq<char>>::empty() =~= before.lines);
    assert(step.lines =~= before.lines);
}

/// A client on a channel can part from it: it is on it no longer, is told so, and the
/// node is asked to leave. From any other channel it cannot.
pub proof fn law_a_client_can_part(
    s: SessionView,
    chat: ChatView,
    profile: ProfileView,
    m: IrcMessageView,
)
    requires
        s.registered,
        m.command == "PART"@,
        m.params.len() >= 1,
        channel_name_fault(m.params[0]) is None,
    ensures
        ({
            let step = message_step(s, chat, profile, m);
            let name = lower_all(m.params[0]);
            if s.joined.contains(name) {
                &&& step.ask == AskView::Part(name)
                &&& step.next == (SessionView { joined: s.joined.remove(name), ..s })
                &&& step.lines == seq![s.own(" PART "@ + name)]
            } else {
                &&& step.ask is Nothing
                &&& step.next == s
                &&& step.lines == seq![
                    s.numeric("442"@, m.params[0] + " :You're not on that channel"@),
                ]
            }
        }),
{
    lemma_commands();
}

/// What a registered client can ask of the node: to join every channel named, to set
/// a topic, to list the channels, to be away or back, to make or unmake an operator,
/// and to block.
pub proof fn law_requests_reach_the_node(
    s: SessionView,
    chat: ChatView,
    profile: ProfileView,
    m: IrcMessageView,
    who: IdentityId,
)
    requires
        s.registered,
        m.params.len() >= 1,
    ensures
        ({
            let step = message_step(s, chat, profile, m);
            let name = lower_all(m.params[0]);
            &&& m.command == "JOIN"@ ==> step.ask == AskView::Join(parts(m.params[0], ','))
            &&& m.command == "LIST"@ ==> step.ask is List
            &&& m.command == "TOPIC"@ && m.params.len() >= 2 && channel_name_fault(m.params[0]) is None
                ==> step.ask == (AskView::SetTopic { name, target: m.params[0], topic: m.params[1] })
            &&& m.command == "AWAY"@ && m.params[0].len() > 0 ==> step.ask == AskView::Away(
                Some(m.params[0]),
            )
            &&& m.command == "AWAY"@ && m.params[0].len() == 0 ==> step.ask == AskView::Away(None)
            &&& m.command == "MODE"@ && m.params.len() >= 3 && channel_name_fault(m.params[0]) is None
                && m.params[1] == "+o"@ && resolved(profile, m.params[2], Some(who)) ==> step.ask == (
            AskView::SetRole {
                name,
                target: m.params[0],
                mode: m.params[1],
                arg: m.params[2],
                who,
                role: Role::Op,
            })
            &&& m.command == "MODE"@ && m.params.len() >= 3 && channel_name_fault(m.params[0]) is None
                && m.params[1] == "-o"@ && resolved(profile, m.params[2], Some(who)) ==> step.ask == (
            AskView::SetRole {
                name,
                target: m.params[0],
                mode: m.params[1],
                arg: m.params[2],
                who,
                role: Role::Member,
            })
            &&& m.command == "MODE"@ && m.params.len() >= 3 && channel_name_fault(m.params[0]) is None
                && m.params[1] == "+b"@ && resolved(profile, m.params[2], Some(who)) ==> step.ask
                == AskView::Block(who)
        }),
{
    lemma_commands();
    reveal_strlit("+o");
    reveal_strlit("-o");
    reveal_strlit("+b");
    assert("+o"@[0] == '+' && "+o"@[1] == 'o' && "-o"@[0] == '-' && "+b"@[1] == 'b');
    if m.params.len() >= 3 && resolved(profile, m.params[2], Some(who)) {
        lemma_meant(profile, m.params[2], Some(who));
    }
}

/// A topic is read without a text: as it is on a channel that has one, and that there
/// is none otherwise.
pub proof fn law_topics_can_be_read(
    s: SessionView,
    chat: ChatView,
    profile: ProfileView,
    m: IrcMessageView,
)
    requires
        s.registered,
        m.command == "TOPIC"@,
        m.params.len() == 1,
        channel_name_fault(m.params[0]) is None,
    ensures
        ({
            let step = message_step(s, chat, profile, m);
            let name = lower_all(m.params[0]);
            &&& step.ask is Nothing
            &&& step.next == s
            &&& chat.joined(name) && chat.channel(name).topic.len() > 0 ==> step.lines == seq![
                s.numeric("332"@, name + " :"@ + chat.channel(name).topic),
            ]
            &&& !chat.joined(name) || chat.channel(name).topic.len() == 0 ==> step.lines == seq![
                s.numeric("331"@, name + " :No topic is set"@),
            ]
        }),
{
    lemma_commands();
}

/// A channel that was joined is shown: that the client is on it, its topic, its
/// members and the end of them, in this order; and, if the client takes times, what
/// was said there last.
pub proof fn law_a_join_shows_the_channel(
    s: SessionView,
    chat: ChatView,
    profile: ProfileView,
    name: Seq<char>,
    target: Seq<char>,
)
    requires
        chat.joined(name),
    ensures
        ({
            let told = join_lines(s, chat, profile, name, target, None);
            let replay = s.history_lines(chat, profile, name);
            &&& told.len() == 4 + if s.server_time {
                replay.len()
            } else {
                0
            }
            &&& told[0] == s.own(" JOIN "@ + name)
            &&& told[1] == s.topic_line(chat, name)
            &&& told[2] == s.numeric(
                "353"@,
                "= "@ + name + " :"@ + spaced(member_labels(chat.channel(name), profile)),
            )
            &&& told[3] == s.numeric("366"@, name + " :End of /NAMES list"@)
            &&& s.server_time ==> told.skip(4) == replay
        }),
{
    let told = join_lines(s, chat, profile, name, target, None);
    let names = s.names_lines(chat, profile, name);
    assert(names.len() == 2);
    assert(told[2] == names[0]);
    assert(told[3] == names[1]);
    if s.server_time {
        assert(told.skip(4) =~= s.history_lines(chat, profile, name));
    }
}

/// Every member of a channel is listed, once, in order, with the sign of their role in
/// front of their nickname, or of their short id if they announced none.
pub proof fn law_every_member_is_listed(c: ChannelView, profile: ProfileView, i: int)
    requires
        0 <= i < in_order(c.members.dom()).len(),
    ensures
        ({
            let id = in_order(c.members.dom())[i];
            let nick = match profile.nick_of(id) {
                Some(n) => n,
                None => hex_text(id@.take(6)),
            };
            &&& member_labels(c, profile).len() == in_order(c.members.dom()).len()
            &&& member_labels(c, profile)[i] == match c.members[id] {
                Role::Founder => "~"@,
                Role::Op => "@"@,
                Role::Member => ""@,
            } + nick
        }),
{
}

/// What a client hears of its own doing: nothing of a message that went out, and why of
/// one that did not, unless it was a notice; that a topic or a role was set, or why not.
pub proof fn law_outcomes_are_told(
    s: SessionView,
    name: Seq<char>,
    target: Seq<char>,
    text: Seq<char>,
    mode: Seq<char>,
    e: ChatError,
)
    ensures
        post_lines(s, target, false, None).len() == 0,
        post_lines(s, target, true, None).len() == 0,
        post_lines(s, target, false, Some(e)).len() == 1,
        post_lines(s, target, true, Some(e)).len() == 0,
        topic_lines(s, name, target, text, None) == seq![s.own(" TOPIC "@ + name + " :"@ + text)],
        topic_lines(s, name, target, text, Some(e)).len() == 1,
        topic_lines(s, name, target, text, Some(ChatError::Channel(ChannelError::NotAnOperator)))
            == seq![s.numeric("482"@, target + " :You're not channel operator"@)],
        role_lines(s, name, target, mode, text, None) == seq![
            s.own(" MODE "@ + name + " "@ + mode + " "@ + text),
        ],
        role_lines(s, name, target, mode, text, Some(e)).len() == 1,
        away_lines(s, true, None) == seq![
            s.numeric("306"@, ":You have been marked as being away"@),
        ],
        away_lines(s, false, None) == seq![
            s.numeric("305"@, ":You are no longer marked as being away"@),
        ],
{
}

/// What the gateway says begins with its name, a code and the client's nickname, or a
/// star if it has none; what a client did is told as from itself.
pub proof fn law_lines_have_their_form(s: SessionView, code: Seq<char>, rest: Seq<char>)
    ensures
        s.nick is None ==> s.numeric(code, rest) == ":mikall.local "@ + code + " "@ + "*"@ + " "@
            + rest,
        s.nick matches Some(n) ==> s.numeric(code, rest) == ":mikall.local "@ + code + " "@ + n
            + " "@ + rest,
        s.nick matches Some(n) ==> s.own(rest) == ":"@ + (n + "!"@ + hex_text(s.me@.take(6))
            + "@mikall"@) + rest,
{
}

/// The channels of a list are all told, one line each, in order, between a heading and
/// an end.
pub proof fn law_every_channel_is_listed(s: SessionView, records: Seq<ChannelRecord>, i: int)
    ensures
        list_lines(s, records).len() == records.len() + 2,
        0 <= i < records.len() ==> list_lines(s, records)[i + 1] == s.numeric(
            "322"@,
            records[i].name@ + " 0 :"@,
        ),
{
}

/// Anyone whom a client asks about is shown with their identity, with the fingerprint
/// if one is known, and with how far their key is trusted.
pub proof fn law_whois_shows_whom_to_trust(
    s: SessionView,
    chat: ChatView,
    profile: ProfileView,
    m: IrcMessageView,
    who: IdentityId,
)
    requires
        s.registered,
        m.command == "WHOIS"@,
        m.params.len() >= 1,
        lower_all(m.params[0]) != lower_all(s.my_nick()),
        resolved(profile, m.params[0], Some(who)),
        who != s.me,
    ensures
        ({
            let step = message_step(s, chat, profile, m);
            let target = m.params[0];
            let first = s.numeric(
                "311"@,
                target + " "@ + hex_text(who@.take(6)) + " mikall * :"@ + hex_text(who@),
            );
            let end = s.numeric("318"@, target + " :End of /WHOIS list"@);
            &&& step.next == s
            &&& step.ask is Nothing
            &&& !profile.contacts.contains_key(who) ==> step.lines == seq![first, end]
            &&& profile.contacts.contains_key(who) ==> step.lines == seq![
                first,
                s.numeric(
                    "320"@,
                    target + " :fingerprint "@ + grouped_base32(
                        profile.contacts[who].fingerprint@,
                    ) + " ("@ + (match profile.contacts[who].trust {
                        TrustLevel::Verified { .. } => "verified"@,
                        TrustLevel::TofuPinned { .. } => "tofu-pinned"@,
                        TrustLevel::Blocked => "blocked"@,
                        TrustLevel::Unverified => "UNVERIFIED"@,
                    }) + ")"@,
                ),
                end,
            ]
        }),
{
    lemma_commands();
    lemma_meant(profile, m.params[0], Some(who));
    let step = message_step(s, chat, profile, m);
    let target = m.params[0];
    let first = s.numeric(
        "311"@,
        target + " "@ + hex_text(who@.take(6)) + " mikall * :"@ + hex_text(who@),
    );
    let end = s.numeric("318"@, target + " :End of /WHOIS list"@);
    if !profile.contacts.contains_key(who) {
        assert(step.lines =~= seq![first, end]);
    } else {
        assert(step.lines.len() == 3);
        assert(step.lines =~= seq![step.lines[0], step.lines[1], step.lines[2]]);
    }
}

/// Capabilities are granted as asked: the times and the tags that a client requests it
/// gets, keeps what it had, and negotiates no longer once it ends.
pub proof fn law_capabilities_are_granted(
    s: SessionView,
    chat: ChatView,
    profile: ProfileView,
    m: IrcMessageView,
)
    requires
        m.command == "CAP"@,
        m.params.len() >= 1,
    ensures
        ({
            let step = message_step(s, chat, profile, m);
            &&& step.ask is Nothing
            &&& step.open
            &&& step.next.registered == s.registered
            &&& step.next.joined == s.joined
            &&& s.server_time ==> step.next.server_time
            &&& upper_all(m.params[0]) == "REQ"@ && m.params.len() >= 2 ==> {
                &&& step.next.server_time == (s.server_time || words(m.params[1]).contains(
                    "server-time"@,
                ))
                &&& step.next.message_tags == (s.message_tags || words(m.params[1]).contains(
                    "message-tags"@,
                ))
                &&& step.next.cap_negotiating == s.cap_negotiating
                &&& step.lines.len() == 1
            }
            &&& upper_all(m.params[0]) == "END"@ ==> !step.next.cap_negotiating
            &&& upper_all(m.params[0]) == "LS"@ ==> step.next.cap_negotiating == !s.registered
                && step.lines == seq![":mikall.local CAP * LS :message-tags server-time"@]
        }),
{
    lemma_commands();
    reveal_strlit("LS");
    reveal_strlit("REQ");
    reveal_strlit("END");
    assert("LS"@.len() == 2 && "REQ"@.len() == 3 && "END"@.len() == 3);
    assert("REQ"@[0] == 'R' && "END"@[0] == 'E');
}

/// What was said is replayed: the last fifty messages of a channel, or all if there are
/// fewer, in the order in which they are shown; each line of each stamped with its time,
/// under its author's nickname, or their short id.
pub proof fn law_history_is_replayed(
    s: SessionView,
    chat: ChatView,
    profile: ProfileView,
    name: Seq<char>,
    ids: Seq<MessageId>,
    id: MessageId,
    i: int,
)
    requires
        chat.joined(name),
    ensures
        ({
            let history = history_of(chat.channel(name).known);
            let order = display_order(history);
            &&& order.len() <= 50 ==> s.history_lines(chat, profile, name) == s.replayed(
                history,
                profile,
                name,
                order,
            )
            &&& order.len() > 50 ==> s.history_lines(chat, profile, name) == s.replayed(
                history,
                profile,
                name,
                order.subrange(order.len() - 50, order.len() as int),
            )
        }),
        ({
            let history = history_of(chat.channel(name).known);
            let m = history[id];
            let before = s.replayed(history, profile, name, ids);
            let after = s.replayed(history, profile, name, ids.push(id));
            let nick = match profile.nick_of(m.author) {
                Some(n) => n,
                None => hex_text(m.author@.take(6)),
            };
            &&& s.replayed(history, profile, name, Seq::<MessageId>::empty()).len() == 0
            &&& after.len() == before.len() + text_chunks(m.body).len()
            &&& after.take(before.len() as int) == before
            &&& 0 <= i < text_chunks(m.body).len() ==> after[before.len() + i] == "@time="@
                + time_text(m.ts_hint_ms) + " "@ + ":"@ + (nick + "!"@ + hex_text(
                m.author@.take(6),
            ) + "@mikall"@) + " PRIVMSG "@ + name + " :"@ + text_chunks(m.body)[i]
        }),
{
    let history = history_of(chat.channel(name).known);
    let order = display_order(history);
    if order.len() > 50 {
        assert(order.skip(order.len() - 50) =~= order.subrange(
            order.len() - 50,
            order.len() as int,
        ));
    } else {
        assert(order.skip(0) =~= order);
    }
    let before = s.replayed(history, profile, name, ids);
    let after = s.replayed(history, profile, name, ids.push(id));
    assert(ids.push(id).drop_last() =~= ids);
    assert(after.take(before.len() as int) =~= before);
}

/// Anyone may ask who is on a channel: every member is told, one line each, with their
/// short id, their nickname and their identity, and then the end. Of a channel that the
/// node is not on, only the end is told.
pub proof fn law_who_lists_every_member(
    s: SessionView,
    chat: ChatView,
    profile: ProfileView,
    m: IrcMessageView,
    i: int,
)
    requires
        s.registered,
        m.command == "WHO"@,
        m.params.len() >= 1,
        channel_name_fault(m.params[0]) is None,
    ensures
        ({
            let step = message_step(s, chat, profile, m);
            let name = lower_all(m.params[0]);
            let ids = in_order(chat.channel(name).members.dom());
            let id = ids[i];
            let nick = match profile.nick_of(id) {
                Some(n) => n,
                None => hex_text(id@.take(6)),
            };
            &&& step.ask is Nothing
            &&& step.next == s
            &&& step.lines.len() > 0
            &&& step.lines.last() == s.numeric("315"@, m.params[0] + " :End of /WHO list"@)
            &&& !chat.joined(name) ==> step.lines.len() == 1
            &&& chat.joined(name) ==> step.lines.len() == ids.len() + 1
            &&& chat.joined(name) && 0 <= i < ids.len() ==> step.lines[i] == s.numeric(
                "352"@,
                name + " "@ + hex_text(id@.take(6)) + " mikall mikall.local "@ + nick + " H :0 "@
                    + hex_text(id@),
            )
        }),
{
    lemma_commands();
}

/// Anyone may ask for the names on a channel: they are told on one line, and then the end.
pub proof fn law_names_are_told(
    s: SessionView,
    chat: ChatView,
    profile: ProfileView,
    m: IrcMessageView,
)
    requires
        s.registered,
        m.command == "NAMES"@,
        m.params.len() >= 1,
        channel_name_fault(m.params[0]) is None,
    ensures
        ({
            let step = message_step(s, chat, profile, m);
            let name = lower_all(m.params[0]);
            &&& step.lines.len() > 0
            &&& step.lines.last() == s.numeric("366"@, name + " :End of /NAMES list"@)
            &&& chat.joined(name) ==> step.lines.len() == 2 && step.lines[0] == s.numeric(
                "353"@,
                "= "@ + name + " :"@ + spaced(member_labels(chat.channel(name), profile)),
            )
            &&& !chat.joined(name) ==> step.lines.len() == 1
        }),
{
    lemma_commands();
}

/// A command that there is not is answered as such.
pub proof fn law_unknown_commands_are_answered(
    s: SessionView,
    chat: ChatView,
    profile: ProfileView,
    m: IrcMessageView,
)
    requires
        s.registered,
        m.command.len() > 7,
    ensures
        ({
            let step = message_step(s, chat, profile, m);
            &&& step.lines == seq![s.numeric("421"@, m.command + " :Unknown command"@)]
            &&& step.next == s
            &&& step.ask is Nothing
            &&& step.open
        }),
{
    lemma_commands();
}

/// A client that lacks a parameter is told so, and nothing else follows.
pub proof fn law_missing_parameters_are_told(
    s: SessionView,
    chat: ChatView,
    profile: ProfileView,
    m: IrcMessageView,
)
    requires
        s.registered,
        m.params.len() == 0,
        m.command == "JOIN"@ || m.command == "PART"@ || m.command == "TOPIC"@ || m.command
            == "MODE"@ || m.command == "WHOIS"@ || m.command == "NICK"@,
    ensures
        ({
            let step = message_step(s, chat, profile, m);
            &&& step.lines.len() == 1
            &&& step.next == s
            &&& step.ask is Nothing
            &&& step.open
        }),
{
    lemma_commands();
    let step = message_step(s, chat, profile, m);
    assert(s.after_register() == s);
}

/// What a client's line comes to is what its message comes to; a line that says nothing
/// comes to nothing.
pub proof fn law_lines_are_taken_at_their_word(
    s: SessionView,
    chat: ChatView,
    profile: ProfileView,
    raw: Seq<char>,
)
    ensures
        parsed(raw) matches Some(m) ==> line_step(s, chat, profile, raw) == message_step(
            s,
            chat,
            profile,
            m,
        ),
        parsed(raw) is None ==> line_step(s, chat, profile, raw).lines.len() == 0 && line_step(
            s,
            chat,
            profile,
            raw,
        ).next == s && line_step(s, chat, profile, raw).ask is Nothing && line_step(
            s,
            chat,
            profile,
            raw,
        ).open,
{
}

/// A password is remembered as it was given, until the next one.
pub proof fn law_passwords_are_remembered(
    s: SessionView,
    chat: ChatView,
    profile: ProfileView,
    m: IrcMessageView,
)
    requires
        m.command == "PASS"@,
        m.params.len() >= 1,
    ensures
        message_step(s, chat, profile, m).next == (SessionView {
            got_pass: Some(m.params[0]),
            ..s
        }),
        message_step(s, chat, profile, m).open,
        message_step(s, chat, profile, m).lines.len() == 0,
{
    lemma_commands();
}

/// Whoever has the password wrong is told so, and that access is denied; nothing more.
pub proof fn law_a_wrong_password_is_told(
    s: SessionView,
    chat: ChatView,
    profile: ProfileView,
    m: IrcMessageView,
)
    requires
        !s.registered,
        !s.cap_negotiating,
        s.nick is Some,
        m.command == "USER"@,
        s.password matches Some(required) && s.got_pass matches Some(given) && required != given,
    ensures
        ({
            let step = message_step(s, chat, profile, m);
            &&& !step.next.registered
            &&& step.ask is Nothing
            &&& step.lines == seq![
                s.numeric("464"@, ":Password incorrect"@),
                "ERROR :Access denied"@,
            ]
        }),
{
    lemma_commands();
    let step = message_step(s, chat, profile, m);
    let next = SessionView { got_user: true, ..s };
    assert(step.lines =~= next.register_lines());
}

/// A client that asks about itself is shown its own fingerprint, as its own.
pub proof fn law_whois_shows_oneself(
    s: SessionView,
    chat: ChatView,
    profile: ProfileView,
    m: IrcMessageView,
)
    requires
        s.registered,
        m.command == "WHOIS"@,
        m.params.len() >= 1,
        lower_all(m.params[0]) == lower_all(s.my_nick()),
    ensures
        ({
            let step = message_step(s, chat, profile, m);
            let target = m.params[0];
            &&& step.lines.len() == 3
            &&& step.lines[0] == s.numeric(
                "311"@,
                target + " "@ + hex_text(s.me@.take(6)) + " mikall * :"@ + hex_text(s.me@),
            )
            &&& step.lines[1] == s.numeric(
                "320"@,
                target + " :fingerprint "@ + grouped_base32(profile.fingerprint@) + " ("@ + "self"@
                    + ")"@,
            )
            &&& step.lines[2] == s.numeric("318"@, target + " :End of /WHOIS list"@)
        }),
{
    lemma_commands();
}

/// A nickname that means nobody is answered as such, whether it is asked about or is to be
/// made an operator.
pub proof fn law_unknown_nicknames_are_answered(
    s: SessionView,
    chat: ChatView,
    profile: ProfileView,
    m: IrcMessageView,
)
    requires
        s.registered,
    ensures
        ({
            let step = message_step(s, chat, profile, m);
            &&& m.command == "WHOIS"@ && m.params.len() >= 1 && lower_all(m.params[0]) != lower_all(
                s.my_nick(),
            ) && resolved(profile, m.params[0], None) ==> step.lines == seq![
                s.numeric("401"@, m.params[0] + " :No such nick"@),
            ]
            &&& m.command == "MODE"@ && m.params.len() >= 3 && channel_name_fault(m.params[0]) is None
                && (m.params[1] == "+o"@ || m.params[1] == "-o"@) && resolved(
                profile,
                m.params[2],
                None,
            ) ==> step.lines == seq![s.numeric("401"@, m.params[2] + " :No such nick"@)]
                && step.ask is Nothing
            &&& m.command == "MODE"@ && m.params.len() == 1 && channel_name_fault(m.params[0]) is None
                ==> step.lines == seq![s.numeric("324"@, lower_all(m.params[0]) + " +nt"@)]
        }),
{
    lemma_commands();
    if m.params.len() >= 1 && resolved(profile, m.params[0], None) {
        lemma_meant(profile, m.params[0], None);
    }
    if m.params.len() >= 3 && resolved(profile, m.params[2], None) {
        lemma_meant(profile, m.params[2], None);
    }
}

/// A join that fails is told with why.
pub proof fn law_refused_joins_are_told(
    s: SessionView,
    chat: ChatView,
    profile: ProfileView,
    name: Seq<char>,
    target: Seq<char>,
    e: ChatError,
)
    ensures
        join_lines(s, chat, profile, name, target, Some(e)) == seq![
            s.numeric("403"@, target + " :Cannot join: "@ + chat_error_text(e)),
        ],
        !(e is Body) ==> post_lines(s, target, false, Some(e)) == seq![
            s.numeric("404"@, target + " :Cannot send: "@ + chat_error_text(e)),
        ],
        e is Body ==> post_lines(s, target, false, Some(e)) == seq![
            s.numeric("412"@, ":No text to send"@),
        ],
{
}

/// Of the capabilities that a client requests, those that there are are acknowledged, in the
/// order asked.
pub proof fn law_known_capabilities_are_acknowledged(
    s: SessionView,
    chat: ChatView,
    profile: ProfileView,
    m: IrcMessageView,
)
    requires
        m.command == "CAP"@,
        m.params.len() >= 2,
        upper_all(m.params[0]) == "REQ"@,
        forall|i: int|
            0 <= i < words(m.params[1]).len() ==> (#[trigger] words(m.params[1])[i])
                == "server-time"@ || words(m.params[1])[i] == "message-tags"@,
    ensures
        message_step(s, chat, profile, m).lines == seq![
            ":mikall.local CAP * ACK :"@ + spaced(words(m.params[1])),
        ],
{
    lemma_commands();
    reveal_strlit("LS");
    reveal_strlit("REQ");
    assert("LS"@.len() == 2 && "REQ"@.len() == 3);
    let asked = words(m.params[1]);
    lemma_filter_all(asked);
}

proof fn lemma_filter_all(asked: Seq<Seq<char>>)
    requires
        forall|i: int| 0 <= i < asked.len() ==> is_cap(#[trigger] asked[i]),
    ensures
        asked.filter(|cap: Seq<char>| is_cap(cap)) == asked,
    decreases asked.len(),
{
    reveal(Seq::filter);
    if asked.len() > 0 {
        let front = asked.drop_last();
        assert forall|i: int| 0 <= i < front.len() implies is_cap(#[trigger] front[i]) by {
            assert(front[i] == asked[i]);
        }
        lemma_filter_all(front);
        assert(is_cap(asked[asked.len() - 1]));
        assert(front.push(asked.last()) =~= asked);
    } else {
        assert(asked.filter(|cap: Seq<char>| is_cap(cap)) =~= asked);
    }
}

/// A step that is as it should be leaves the session as it says, tells what it says, asks
/// what it says, and goes on or not as it says.
pub proof fn law_steps_are_as_they_say(step: Step, v: StepView, after: SessionView)
    requires
        step.is(v, after),
    ensures
        after == v.next,
        texts(step.lines@) == v.lines,
        step.ask@ == v.ask,
        step.open == v.open,
{
}

/// A client that gets in is greeted: with where it is, with what the gateway can do, with the
/// message of the day, and with what the gateway does not protect.
pub proof fn law_newcomers_are_greeted(s: SessionView)
    ensures
        s.welcome().len() == 10,
        s.welcome()[0] == s.numeric("001"@, ":Welcome to the mikall network "@ + s.my_nick()),
        s.welcome()[4] == s.numeric(
            "005"@,
            "CASEMAPPING=ascii CHANTYPES=# NICKLEN=16 TOPICLEN=390 NETWORK=mikall :are supported by this server"@,
        ),
        s.welcome().subrange(5, 9) == s.motd(),
        s.motd()[0] == s.numeric("375"@, ":- mikall.local Message of the day -"@),
        s.motd()[3] == s.numeric("376"@, ":End of /MOTD command"@),
        (":mikall.local NOTICE "@ + s.my_nick()).is_prefix_of(s.welcome()[9]),
{
    let w = s.welcome();
    assert(w.subrange(5, 9) =~= s.motd());
    let head = ":mikall.local NOTICE "@ + s.my_nick();
    assert(head =~= w[9].subrange(0, head.len() as int));
}

/// The message of the day is told to whoever asks for it.
pub proof fn law_the_motd_can_be_asked_for(
    s: SessionView,
    chat: ChatView,
    profile: ProfileView,
    m: IrcMessageView,
)
    requires
        s.registered,
        m.command == "MOTD"@,
    ensures
        message_step(s, chat, profile, m).lines == s.motd(),
        message_step(s, chat, profile, m).next == s,
        message_step(s, chat, profile, m).ask is Nothing,
{
    lemma_commands();
}

} // verus!
