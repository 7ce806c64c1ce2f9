//! What each packet of a TAKP/EQMac session holds, and what comes of it.

use super::{
    account_in, asks_version, character_listed, data_rate, destination_in, fields, filters, key_in,
    login_info, login_info_fault, server_named, servers_in, version_message, LoginDoneState,
    LoginState, ServerState, World, WorldDoneState, ZoneState,
};
use crate::bytes;
use crate::client::session::{self, ChatOutcomeState, End};
use crate::client::step::{received_text, Act, Fault, NoticeState, Refusal};
use crate::client::{ConnectionStage, ConnectionState, LoginError};
use crate::outside;
use crate::text;
use vstd::prelude::*;

verus! {

/// Text in a field of zeros.
pub open spec fn in_field(s: Seq<u8>, at: int, size: int, text: Seq<u8>) -> bool {
    &&& text.len() <= size
    &&& forall|i: int|
        0 <= i < size ==> #[trigger] s[at + i] == if i < text.len() {
            text[i]
        } else {
            0
        }
}

/// The account and the password stand in twenty bytes each.
pub proof fn law_login_fields(user: Seq<u8>, pass: Seq<u8>)
    requires
        user.len() < 20,
        pass.len() < 20,
    ensures
        fields(user, pass).len() == 40,
        in_field(fields(user, pass), 0, 20, user),
        in_field(fields(user, pass), 20, 20, pass),
{
}

/// The login to the world is the account, a zero and the key, in a field of 200 bytes.
/// Both have to fit in 127 bytes.
pub proof fn law_world_login_fields(account: Seq<u8>, key: Seq<u8>)
    requires
        key.len() == 10,
    ensures
        ({
            let zero = exists|i: int| 0 <= i < account.len() && #[trigger] account[i] == 0;
            &&& login_info_fault(account) == if account.len() >= 127 || zero {
                Some(Refusal::FieldSize)
            } else if account.len() > 116 {
                Some(Refusal::LegacyFields)
            } else {
                None
            }
        }),
        account.len() <= 116 ==> {
            &&& login_info(account, key).len() == 200
            &&& in_field(login_info(account, key), 0, 200, account.push(0) + key)
        },
{
    if exists|i: int| 0 <= i < account.len() && #[trigger] account[i] == 0 {
        let i = choose|i: int| 0 <= i < account.len() && #[trigger] account[i] == 0;
        assert(account.contains(account[i]));
    }
    if account.len() <= 116 {
        assert(account + seq![0u8] + key =~= account.push(0) + key);
    }
}

/// The account of an accepted login stands in its first ten bytes, up to a zero, and
/// begins with `LS#`.
pub proof fn law_accounts_are_read(body: Seq<u8>, account: Seq<u8>)
    requires
        account.len() <= 10,
        forall|i: int| 0 <= i < account.len() ==> account[i] != 0,
    ensures
        body.len() < 21 ==> account_in(body) == Err::<Seq<u8>, _>(Refusal::LegacyLogin),
        body.len() >= 21 && body.take(account.len() as int) == account && (account.len() < 10 ==> body[
        account.len() as int] == 0) ==> {
            let marked = account.len() > 3 && account[0] == 'L' as u8 && account[1] == 'S' as u8
                && account[2] == '#' as u8;
            &&& !vstd::utf8::valid_utf8(account) ==> account_in(body) == Err::<Seq<u8>, _>(
                Refusal::LegacyAccountEncoding,
            )
            &&& vstd::utf8::valid_utf8(account) && !marked ==> account_in(body) == Err::<
                Seq<u8>,
                _,
            >(Refusal::LegacyAccount)
            &&& vstd::utf8::valid_utf8(account) && marked ==> account_in(body) == Ok::<_, Refusal>(
                account,
            )
        },
{
    if body.len() >= 21 && body.take(account.len() as int) == account && (account.len() < 10
        ==> body[account.len() as int] == 0) {
        let field = body.take(10);
        assert forall|i: int| 0 <= i < account.len() implies field[i] != 0 by {
            assert(account[i] == body.take(account.len() as int)[i]);
        }
        bytes::lemma_until_unique(field, 0, account.len() as int);
        assert(field.take(account.len() as int) =~= account);
        let mark = seq![0x4cu8, 0x53u8, 0x23u8];
        if account.len() > 3 {
            if account.take(3) == mark {
                assert(account.take(3)[0] == mark[0] && account.take(3)[1] == mark[1]
                    && account.take(3)[2] == mark[2]);
            }
            if account[0] == 0x4c && account[1] == 0x53 && account[2] == 0x23 {
                assert(account.take(3) =~= mark);
            }
        }
    }
}

/// A server as it stands in a list: its name and its address, each with a zero behind
/// it, and thirteen bytes of flags.
pub struct Entry {
    pub name: Seq<u8>,
    pub ip: Seq<u8>,
    pub flags: Seq<u8>,
}

/// Whether a server can stand in a list.
pub open spec fn listable(e: Entry) -> bool {
    &&& forall|i: int| 0 <= i < e.name.len() ==> e.name[i] != 0
    &&& forall|i: int| 0 <= i < e.ip.len() ==> e.ip[i] != 0
    &&& e.flags.len() == 13
}

/// The bytes of some servers in a list.
pub open spec fn list_bytes(entries: Seq<Entry>) -> Seq<u8>
    decreases entries.len(),
{
    if entries.len() == 0 {
        Seq::empty()
    } else {
        entries[0].name.push(0) + entries[0].ip.push(0) + entries[0].flags + list_bytes(
            entries.skip(1),
        )
    }
}

proof fn lemma_string(before: Seq<u8>, s: Seq<u8>, after: Seq<u8>)
    requires
        forall|i: int| 0 <= i < s.len() ==> s[i] != 0,
    ensures
        super::string_at(before + (s.push(0) + after), before.len() as int) == Ok::<_, Refusal>(
            (outside::lossy(s), before.len() as int + s.len() + 1),
        ),
{
    let body = before + (s.push(0) + after);
    let rest = body.skip(before.len() as int);
    assert(rest =~= s.push(0) + after);
    bytes::lemma_until_unique(rest, 0, s.len() as int);
    assert(rest.take(s.len() as int) =~= s);
}

proof fn lemma_entries(before: Seq<u8>, entries: Seq<Entry>, after: Seq<u8>)
    requires
        forall|i: int| 0 <= i < entries.len() ==> listable(#[trigger] entries[i]),
    ensures
        super::servers_at(
            before + (list_bytes(entries) + after),
            before.len() as int,
            entries.len(),
        ) == Ok::<_, Refusal>(
            entries.map_values(
                |e: Entry| ServerState { name: outside::lossy(e.name), ip: outside::lossy(e.ip) },
            ),
        ),
    decreases entries.len(),
{
    let seen = entries.map_values(
        |e: Entry| ServerState { name: outside::lossy(e.name), ip: outside::lossy(e.ip) },
    );
    if entries.len() == 0 {
        assert(seen =~= Seq::empty());
    } else {
        let e = entries[0];
        assert(listable(e));
        let rest = entries.skip(1);
        let body = before + (list_bytes(entries) + after);
        let tail = list_bytes(rest) + after;
        let behind_name = e.ip.push(0) + e.flags + tail;
        assert(body =~= before + (e.name.push(0) + behind_name));
        lemma_string(before, e.name, behind_name);
        let named = before + e.name.push(0);
        assert(body =~= named + (e.ip.push(0) + (e.flags + tail)));
        lemma_string(named, e.ip, e.flags + tail);
        let done = named + e.ip.push(0) + e.flags;
        assert(body =~= done + tail);
        assert forall|i: int| 0 <= i < rest.len() implies listable(#[trigger] rest[i]) by {
            assert(rest[i] == entries[i + 1]);
        }
        lemma_entries(done, rest, after);
        let others = rest.map_values(
            |e: Entry| ServerState { name: outside::lossy(e.name), ip: outside::lossy(e.ip) },
        );
        assert(seen =~= seq![seen[0]] + others);
    }
}

/// A list of servers is read whole and in its order: as many as its first two bytes say,
/// the low one first, behind three more bytes.
pub proof fn law_server_lists_are_read(
    head: Seq<u8>,
    entries: Seq<Entry>,
    after: Seq<u8>,
    body: Seq<u8>,
)
    requires
        head.len() == 5,
        head[0] + 256 * head[1] == entries.len(),
        forall|i: int| 0 <= i < entries.len() ==> listable(#[trigger] entries[i]),
    ensures
        servers_in(head + (list_bytes(entries) + after)) == Ok::<_, Refusal>(
            entries.map_values(
                |e: Entry| ServerState { name: outside::lossy(e.name), ip: outside::lossy(e.ip) },
            ),
        ),
        body.len() < 5 ==> servers_in(body) == Err::<Seq<ServerState>, _>(Refusal::LegacyList),
{
    lemma_entries(head, entries, after);
    let whole = head + (list_bytes(entries) + after);
    assert(whole[0] == head[0] && whole[1] == head[1]);
}

/// A server is found by its name without regard to case, the first one of that name.
pub proof fn law_servers_are_found_by_name(servers: Seq<ServerState>, name: Seq<u8>)
    ensures
        match server_named(servers, name) {
            Some(found) => exists|i: int|
                0 <= i < servers.len() && #[trigger] servers[i] == found && bytes::lowered(
                    text::utf8(found.name),
                ) == bytes::lowered(name) && forall|k: int|
                    0 <= k < i ==> bytes::lowered(text::utf8((#[trigger] servers[k]).name))
                        != bytes::lowered(name),
            None => forall|k: int|
                0 <= k < servers.len() ==> bytes::lowered(text::utf8((#[trigger] servers[k]).name))
                    != bytes::lowered(name),
        },
    decreases servers.len(),
{
    if servers.len() > 0 {
        let rest = servers.skip(1);
        law_servers_are_found_by_name(rest, name);
        if bytes::lowered(text::utf8(servers[0].name)) == bytes::lowered(name) {
            assert(servers[0] == server_named(servers, name)->0);
        } else {
            match server_named(rest, name) {
                Some(found) => {
                    let i = choose|i: int|
                        0 <= i < rest.len() && #[trigger] rest[i] == found && bytes::lowered(
                            text::utf8(found.name),
                        ) == bytes::lowered(name) && forall|k: int|
                            0 <= k < i ==> bytes::lowered(text::utf8((#[trigger] rest[k]).name))
                                != bytes::lowered(name);
                    assert(servers[i + 1] == found);
                    assert forall|k: int| 0 <= k < i + 1 implies bytes::lowered(
                        text::utf8((#[trigger] servers[k]).name),
                    ) != bytes::lowered(name) by {
                        if k > 0 {
                            assert(servers[k] == rest[k - 1]);
                        }
                    }
                },
                None => {
                    assert forall|k: int| 0 <= k < servers.len() implies bytes::lowered(
                        text::utf8((#[trigger] servers[k]).name),
                    ) != bytes::lowered(name) by {
                        if k > 0 {
                            assert(servers[k] == rest[k - 1]);
                        }
                    }
                },
            }
        }
    }
}

/// The key of a server that lets us in is its ten bytes behind the first, all of them
/// letters or digits.
pub proof fn law_keys_are_read(body: Seq<u8>)
    ensures
        body.len() < 11 ==> key_in(body) == Err::<Seq<u8>, _>(Refusal::LegacyPlay),
        body.len() >= 11 ==> {
            let valid = forall|i: int|
                1 <= i < 11 ==> {
                    let b = #[trigger] body[i];
                    48 <= b <= 57 || 65 <= b <= 90 || 97 <= b <= 122
                };
            &&& valid ==> key_in(body) == Ok::<_, Refusal>(body.subrange(1, 11))
            &&& !valid ==> key_in(body) == Err::<Seq<u8>, _>(Refusal::LegacyKey)
        },
{
    if body.len() >= 11 {
        let key = body.subrange(1, 11);
        assert(forall|i: int| 0 <= i < 10 ==> #[trigger] key[i] == body[i + 1]);
        assert(forall|i: int| 1 <= i < 11 ==> #[trigger] body[i] == key[i - 1]);
    }
}

/// A character is listed where one of ten fields of 64 bytes holds its name, up to a
/// zero and without regard to case.
pub proof fn law_characters_are_listed(body: Seq<u8>, character: Seq<u8>, i: int, name: Seq<u8>)
    requires
        body.len() >= 640,
        0 <= i < 10,
        name.len() <= 64,
        forall|k: int| 0 <= k < name.len() ==> name[k] != 0,
        body.subrange(64 * i, 64 * i + name.len()) == name,
        name.len() < 64 ==> body[64 * i + name.len()] == 0,
    ensures
        bytes::lowered(name) == bytes::lowered(character) ==> character_listed(body, character),
        !character_listed(body, character) ==> bytes::lowered(name) != bytes::lowered(character),
        character_listed(body, character) ==> exists|k: int|
            0 <= k < 10 && bytes::lowered(
                bytes::until_nul(#[trigger] body.subrange(64 * k, 64 * k + 64)),
            ) == bytes::lowered(character),
{
    let field = body.subrange(64 * i, 64 * i + 64);
    assert forall|k: int| 0 <= k < name.len() implies field[k] != 0 by {
        assert(name[k] == body.subrange(64 * i, 64 * i + name.len())[k]);
    }
    bytes::lemma_until_unique(field, 0, name.len() as int);
    assert(field.take(name.len() as int) =~= name);
    assert(super::listed_name(body, i) == name);
    if character_listed(body, character) {
        let k = choose|k: int|
            0 <= k < 10 && bytes::lowered(#[trigger] super::listed_name(body, k)) == bytes::lowered(
                character,
            );
        assert(bytes::lowered(bytes::until_nul(body.subrange(64 * k, 64 * k + 64)))
            == bytes::lowered(character));
    }
}

/// The zone to go to: its host, up to a zero in a field of 128 bytes, and its port with
/// the high byte first. Neither may be left out.
pub proof fn law_destinations_are_read(body: Seq<u8>, host: Seq<u8>)
    requires
        host.len() <= 128,
        forall|i: int| 0 <= i < host.len() ==> host[i] != 0,
    ensures
        body.len() < 130 ==> destination_in(body) == Err::<(Seq<u8>, u16), _>(
            Refusal::LegacyHandoff,
        ),
        body.len() >= 130 && body.take(host.len() as int) == host && (host.len() < 128 ==> body[
        host.len() as int] == 0) ==> {
            let port = 256 * body[128] + body[129];
            &&& !vstd::utf8::valid_utf8(host) ==> destination_in(body) == Err::<(Seq<u8>, u16), _>(
                Refusal::HostEncoding,
            )
            &&& vstd::utf8::valid_utf8(host) && (host.len() == 0 || port == 0) ==> destination_in(
                body,
            ) == Err::<(Seq<u8>, u16), _>(Refusal::LegacyEndpoint)
            &&& vstd::utf8::valid_utf8(host) && host.len() > 0 && port > 0 ==> destination_in(body)
                == Ok::<_, Refusal>((host, port as u16))
        },
{
    if body.len() >= 130 && body.take(host.len() as int) == host && (host.len() < 128 ==> body[
    host.len() as int] == 0) {
        let field = body.take(128);
        assert forall|i: int| 0 <= i < host.len() implies field[i] != 0 by {
            assert(host[i] == body.take(host.len() as int)[i]);
        }
        bytes::lemma_until_unique(field, 0, host.len() as int);
        assert(field.take(host.len() as int) =~= host);
    }
}

/// A version message is four words with the low byte first: no spawn, the message type
/// 256, version 7 and feature 4, whose high bit marks an answer. A message asks for the
/// version where it names the feature without that bit.
pub proof fn law_version_messages(body: Seq<u8>)
    ensures
        version_message(false) == seq![0u8, 0, 0, 1, 7, 0, 4, 0],
        version_message(true) == seq![0u8, 0, 0, 1, 7, 0, 4, 0x80],
        asks_version(body) <==> body.len() == 8 && body[0] == 0 && body[1] == 0 && body[2] == 0
            && body[3] == 1 && body[6] == 4 && body[7] == 0,
{
    assert(version_message(false) =~= seq![0u8, 0, 0, 1, 7, 0, 4, 0]);
    assert(version_message(true) =~= seq![0u8, 0, 0, 1, 7, 0, 4, 0x80]);
}

/// The filters are seventeen words with the low byte first: the sixth to the fifteenth
/// are one, and the others zero. The data rate is the number 10 in single precision.
pub proof fn law_filters_are_words(i: int)
    ensures
        filters().len() == 68,
        0 <= i < 17 ==> filters()[4 * i] == if 5 <= i <= 14 {
            1int
        } else {
            0
        },
        0 <= i < 17 ==> filters()[4 * i + 1] == 0 && filters()[4 * i + 2] == 0 && filters()[4 * i + 3]
            == 0,
        data_rate() == seq![0u8, 0, 0x20, 0x41],
{
}

/// The login goes out once, when the server is ready for it, where its fields fit.
pub proof fn law_ready_servers_get_the_login(
    login: LoginState,
    user: Seq<u8>,
    pass: Seq<u8>,
    server: Seq<u8>,
    body: Seq<u8>,
)
    ensures
        ({
            let (next, acts, end) = login.received(user, pass, server, 0x5900, body);
            let fits = bytes::fits_field(user, 20) && bytes::fits_field(pass, 20);
            let progress = Act::Notify(NoticeState::Progress(ConnectionStage::Authenticating));
            &&& login.sent_login ==> next == login && acts.len() == 0 && end is Continue
            &&& !login.sent_login && !fits ==> next == login && acts == seq![progress] && end
                == End::<LoginDoneState>::Fail(Fault::Refused(Refusal::FieldSize))
            &&& !login.sent_login && fits ==> next == (LoginState { sent_login: true, ..login })
                && acts == seq![progress, Act::SendEncrypted(0x0100, fields(user, pass))]
                && end is Continue
        }),
{
}

/// An accepted login gives the account, once, and is completed.
pub proof fn law_accepted_logins_are_completed(
    login: LoginState,
    user: Seq<u8>,
    pass: Seq<u8>,
    server: Seq<u8>,
    body: Seq<u8>,
)
    ensures
        ({
            let (next, acts, end) = login.received(user, pass, server, 0x0400, body);
            let given = account_in(body);
            &&& login.account is Some ==> next == login && acts.len() == 0 && end is Continue
            &&& login.account is None && given is Err ==> next == login && acts.len() == 0 && end
                == End::<LoginDoneState>::Fail(Fault::Refused(given->Err_0))
            &&& login.account is None && given is Ok ==> {
                &&& next == (LoginState {
                    account: Some(given->Ok_0),
                    sent_complete: true,
                    ..login
                })
                &&& acts == seq![
                    Act::Send(0x8800, Seq::empty()),
                    Act::Notify(
                        NoticeState::Diagnostic("TAKP login server authenticated the account"@),
                    ),
                ]
                &&& end is Continue
            }
        }),
{
}

/// The servers are asked for once, when the login is complete.
pub proof fn law_completed_logins_ask_for_servers(
    login: LoginState,
    user: Seq<u8>,
    pass: Seq<u8>,
    server: Seq<u8>,
    body: Seq<u8>,
)
    ensures
        ({
            let (next, acts, end) = login.received(user, pass, server, 0x8800, body);
            let due = login.sent_complete && !login.requested_list;
            &&& end is Continue
            &&& !due ==> next == login && acts.len() == 0
            &&& due ==> next == (LoginState { requested_list: true, ..login }) && acts == seq![
                Act::Notify(NoticeState::Progress(ConnectionStage::SelectingServer)),
                Act::Send(0x4600, Seq::empty()),
            ]
        }),
{
}

/// The server of the list that is asked for is named by its address with a zero behind
/// it, once.
pub proof fn law_listed_servers_are_asked_for(
    login: LoginState,
    user: Seq<u8>,
    pass: Seq<u8>,
    server: Seq<u8>,
    body: Seq<u8>,
)
    ensures
        ({
            let (next, acts, end) = login.received(user, pass, server, 0x4600, body);
            let due = login.requested_list && login.selected is None;
            let list = servers_in(body);
            let found = server_named(list->Ok_0, server);
            &&& !due ==> next == login && acts.len() == 0 && end is Continue
            &&& due && list is Err ==> next == login && acts.len() == 0 && end == End::<
                LoginDoneState,
            >::Fail(Fault::Refused(list->Err_0))
            &&& due && list is Ok && found is None ==> next == login && acts.len() == 0 && end
                == End::<LoginDoneState>::Fail(Fault::Refused(Refusal::LegacyServerAbsent))
            &&& due && list is Ok && found is Some ==> {
                &&& next == (LoginState { selected: Some(found->0.ip), ..login })
                &&& acts == seq![Act::Send(0x4700, text::utf8(found->0.ip).push(0))]
                &&& end is Continue
            }
        }),
{
}

/// The login ends with the server that lets us in: with our account, its key and its
/// address.
pub proof fn law_the_login_ends_with_a_server(
    login: LoginState,
    user: Seq<u8>,
    pass: Seq<u8>,
    server: Seq<u8>,
    body: Seq<u8>,
)
    ensures
        ({
            let (next, acts, end) = login.received(user, pass, server, 0x4700, body);
            let key = key_in(body);
            &&& next == login
            &&& login.selected is None ==> acts.len() == 0 && end is Continue
            &&& login.selected is Some && key is Err ==> acts.len() == 0 && end == End::<
                LoginDoneState,
            >::Fail(Fault::Refused(key->Err_0))
            &&& login.selected is Some && key is Ok ==> acts == seq![
                Act::Close,
                Act::Notify(NoticeState::Progress(ConnectionStage::ConnectingWorld)),
            ]
            &&& login.selected is Some && key is Ok && login.account is None ==> end == End::<
                LoginDoneState,
            >::Fail(Fault::Refused(Refusal::PlayBeforeLogin))
            &&& login.selected is Some && key is Ok && login.account is Some ==> end == End::Done(
                LoginDoneState {
                    account: login.account->0,
                    key: key->Ok_0,
                    ip: login.selected->0,
                },
            )
        }),
{
}

/// An error before the account is known says that the credentials are wrong, and a later
/// one why the world cannot be entered. Other packets change nothing.
pub proof fn law_login_errors_end_the_login(
    login: LoginState,
    user: Seq<u8>,
    pass: Seq<u8>,
    server: Seq<u8>,
    opcode: u16,
    body: Seq<u8>,
)
    ensures
        login.received(user, pass, server, 0x0200, body) == (
            login,
            Seq::<Act>::empty(),
            End::<LoginDoneState>::Fail(
                if login.account is None {
                    Fault::Login(LoginError::InvalidCredentials)
                } else {
                    Fault::WorldEntry(outside::lossy(bytes::until_nul(body)))
                },
            ),
        ),
        opcode != 0x5900 && opcode != 0x0400 && opcode != 0x8800 && opcode != 0x4600 && opcode
            != 0x4700 && opcode != 0x0200 ==> login.received(user, pass, server, opcode, body) == (
            login,
            Seq::<Act>::empty(),
            End::<LoginDoneState>::Continue,
        ),
        LoginState::begun(login.deadline) == (LoginState {
            account: None,
            selected: None,
            sent_login: false,
            sent_complete: false,
            requested_list: false,
            deadline: login.deadline,
        }),
{
}

/// What the world session tells of each packet: that it came, by its opcode and length.
pub open spec fn noted(opcode: u16, body: Seq<u8>) -> Act {
    Act::Notify(
        NoticeState::Diagnostic(received_text("Quarm world received 0x"@, opcode, body.len())),
    )
}

/// The character is chosen from the list once, and must be in it. Where only the world
/// is asked for, the session ends here.
pub proof fn law_characters_are_chosen_once(
    world: World,
    character: Seq<u8>,
    world_only: bool,
    body: Seq<u8>,
)
    ensures
        ({
            let (next, acts, end) = world.received(
                character,
                world_only,
                0x4740,
                body,
                ChatOutcomeState::Nothing,
            );
            let here = noted(0x4740, body);
            let progress = Act::Notify(NoticeState::Progress(ConnectionStage::SelectingCharacter));
            let due = !world.entered;
            let listed = body.len() >= 640 && character_listed(body, character);
            let fits = bytes::fits_field(character, 64);
            &&& !due ==> next == world && acts == seq![here] && end is Continue
            &&& due && body.len() < 640 ==> next == world && acts == seq![here] && end == End::<
                WorldDoneState,
            >::Fail(Fault::Refused(Refusal::LegacyCharacters))
            &&& due && body.len() >= 640 && !listed ==> next == world && acts == seq![here] && end
                == End::<WorldDoneState>::Fail(Fault::Refused(Refusal::CharacterAbsent))
            &&& due && listed && world_only ==> next == world && acts == seq![
                here,
                progress,
                Act::Close,
            ] && end == End::Done(WorldDoneState::Selected)
            &&& due && listed && !world_only && !fits ==> next == world && acts == seq![
                here,
                progress,
            ] && end == End::<WorldDoneState>::Fail(Fault::Refused(Refusal::FieldSize))
            &&& due && listed && !world_only && fits ==> {
                &&& next == (World { entered: true, ..world })
                &&& end is Continue
                &&& acts.len() == 4 && acts[0] == here && acts[1] == progress
                &&& acts[2] matches Act::Send(opcode, data) && opcode == 0x0180 && data.len() == 64
                    && in_field(data, 0, 64, character)
                &&& acts[3] == Act::Notify(NoticeState::Progress(ConnectionStage::ConnectingZone))
            }
        }),
{
    let acts = world.received(
        character,
        world_only,
        0x4740,
        body,
        ChatOutcomeState::Nothing,
    ).1;
    let more = world.selecting(character, world_only, body).1;
    let here = noted(0x4740, body);
    lemma_noted(0x4740, body);
    if world.entered {
        assert(acts =~= seq![here]);
    } else {
        assert(acts =~= seq![here] + more);
        let progress = Act::Notify(NoticeState::Progress(ConnectionStage::SelectingCharacter));
        if more.len() == 0 {
            assert(acts =~= seq![here]);
        } else if more.len() == 1 {
            assert(acts =~= seq![here, progress]);
        } else if more.len() == 2 {
            assert(acts =~= seq![here, progress, Act::Close]);
        }
    }
}

proof fn lemma_noted(opcode: u16, body: Seq<u8>)
    ensures
        session::chat_record(Seq::empty(), ChatOutcomeState::Nothing, opcode, body).push(
            session::told(received_text("Quarm world received 0x"@, opcode, body.len())),
        ) == seq![noted(opcode, body)],
{
    assert(session::chat_record(Seq::empty(), ChatOutcomeState::Nothing, opcode, body).push(
        session::told(received_text("Quarm world received 0x"@, opcode, body.len())),
    ) =~= seq![noted(opcode, body)]);
}

/// A zone is gone to after the world was entered, and other packets of the world are
/// only told of.
pub proof fn law_zones_are_gone_to(
    world: World,
    character: Seq<u8>,
    world_only: bool,
    opcode: u16,
    body: Seq<u8>,
)
    ensures
        ({
            let (next, acts, end) = world.received(
                character,
                world_only,
                0x0480,
                body,
                ChatOutcomeState::Nothing,
            );
            let here = noted(0x0480, body);
            let place = destination_in(body);
            &&& next == world
            &&& !world.entered ==> acts == seq![here] && end is Continue
            &&& world.entered && place is Err ==> acts == seq![here] && end == End::<
                WorldDoneState,
            >::Fail(Fault::Refused(place->Err_0))
            &&& world.entered && place is Ok ==> acts == seq![here, Act::Close] && end == End::Done(
                WorldDoneState::Zone(place->Ok_0.0, place->Ok_0.1),
            )
        }),
        opcode != 0x0480 && opcode != 0x4740 ==> world.received(
            character,
            world_only,
            opcode,
            body,
            ChatOutcomeState::Nothing,
        ) == (world, seq![noted(opcode, body)], End::<WorldDoneState>::Continue),
{
    lemma_noted(0x0480, body);
    lemma_noted(opcode, body);
    let here = noted(0x0480, body);
    assert(seq![here] + seq![Act::Close] =~= seq![here, Act::Close]);
    assert(seq![here] + Seq::<Act>::empty() =~= seq![here]);
    assert(seq![noted(opcode, body)] + Seq::<Act>::empty() =~= seq![noted(opcode, body)]);
}

/// What a communication adds to the acts of the world: its record stands in front.
pub proof fn law_world_communications_are_recorded(
    world: World,
    character: Seq<u8>,
    world_only: bool,
    opcode: u16,
    body: Seq<u8>,
    found: ChatOutcomeState,
)
    ensures
        ({
            let (next, acts, end) = world.received(character, world_only, opcode, body, found);
            let (same, others, ended) = world.received(
                character,
                world_only,
                opcode,
                body,
                ChatOutcomeState::Nothing,
            );
            &&& next == same && end == ended
            &&& acts == session::chat_record(Seq::empty(), found, opcode, body) + others
        }),
{
    let acts = world.received(character, world_only, opcode, body, found).1;
    let others = world.received(
        character,
        world_only,
        opcode,
        body,
        ChatOutcomeState::Nothing,
    ).1;
    assert(acts =~= session::chat_record(Seq::empty(), found, opcode, body) + others);
}

/// A zone session begins with nothing seen and nothing asked. As time passes it ends when
/// it is cancelled or its time is over, admission has to come within a minute, and a
/// report is due every half minute.
pub proof fn law_time_passes(
    zone: ZoneState,
    cancelled: bool,
    duration: Option<u64>,
    last_received_seconds: u64,
    now: u64,
)
    ensures
        ZoneState::entered(now) == (ZoneState {
            connected: now,
            progress: now,
            packets: 0,
            ready: false,
            saw_profile: false,
            requested_zone: false,
            requested_spawns: false,
            replied_experience: false,
            sent_ready: false,
            zone_name: Seq::empty(),
        }),
        ({
            let (next, acts, end) = zone.ticked(cancelled, duration, last_received_seconds, now);
            let over = duration is Some && (now - zone.connected >= duration->0 || duration->0 == 0);
            let late = !zone.ready && now - zone.connected >= 60_000_000_000;
            let due = now - zone.progress >= 30_000_000_000;
            &&& cancelled || over ==> next == zone && acts == seq![Act::Close] && end
                == End::Done(())
            &&& !cancelled && !over && late ==> next == zone && acts.len() == 0 && end == End::<
                (),
            >::Fail(Fault::Refused(Refusal::Admission))
            &&& !cancelled && !over && !late && !due ==> next == zone && acts.len() == 0
                && end is Continue
            &&& !cancelled && !over && !late && due ==> {
                &&& next == (ZoneState { progress: now, ..zone })
                &&& end is Continue
                &&& acts == seq![
                    Act::Notify(
                        NoticeState::Status {
                            state: if zone.ready && last_received_seconds < 60 {
                                ConnectionState::Connected
                            } else {
                                ConnectionState::Zoning
                            },
                            packets: zone.packets,
                            last_received_seconds: Some(last_received_seconds),
                        },
                    ),
                    Act::Notify(
                        NoticeState::Traffic {
                            heading: "Quarm zone session: "@,
                            count: zone.packets,
                        },
                    ),
                ]
            }
        }),
{
}

/// The steps of admission, each taken once and in this order: the profile is noted, the
/// weather is answered with the request for the zone, its description with that for the
/// spawns, experience in kind, and the avatar with filters, our version and one update of
/// fifteen zeros.
pub proof fn law_admission_goes_step_by_step(
    zone: ZoneState,
    body: Seq<u8>,
    last_received_seconds: u64,
    name: Seq<u8>,
)
    requires
        name.len() < 32,
        forall|k: int| 0 <= k < name.len() ==> name[k] != 0,
    ensures
        zone.handled(0x3640, body, last_received_seconds) == (
            ZoneState { saw_profile: true, ..zone },
            Seq::<Act>::empty(),
            None::<Fault>,
        ),
        zone.handled(0x3641, body, last_received_seconds) == if zone.requested_zone {
            (zone, Seq::<Act>::empty(), None::<Fault>)
        } else {
            (
                ZoneState { requested_zone: true, ..zone },
                seq![Act::Send(0x5d40, Seq::empty())],
                None::<Fault>,
            )
        },
        zone.requested_spawns ==> zone.handled(0x5b40, body, last_received_seconds) == (
            zone,
            Seq::<Act>::empty(),
            None::<Fault>,
        ),
        !zone.requested_spawns && body.len() < 96 ==> zone.handled(
            0x5b40,
            body,
            last_received_seconds,
        ) == (zone, Seq::<Act>::empty(), Some(Fault::Refused(Refusal::LegacyDescription))),
        !zone.requested_spawns && body.len() >= 96 && body.subrange(64, 64int + name.len()) == name
            && body[64int + name.len()] == 0 ==> zone.handled(0x5b40, body, last_received_seconds)
            == (
            ZoneState { zone_name: outside::lossy(name), requested_spawns: true, ..zone },
            seq![
                Act::Notify(NoticeState::Zone(outside::lossy(name))),
                Act::Notify(
                    NoticeState::Status {
                        state: ConnectionState::Zoning,
                        packets: zone.packets,
                        last_received_seconds: Some(last_received_seconds),
                    },
                ),
                Act::Send(0x0a40, Seq::empty()),
            ],
            None::<Fault>,
        ),
        zone.handled(0xd840, body, last_received_seconds) == if zone.requested_spawns
            && !zone.replied_experience {
            (
                ZoneState { replied_experience: true, ..zone },
                seq![Act::Send(0xd840, Seq::empty())],
                None::<Fault>,
            )
        } else {
            (zone, Seq::<Act>::empty(), None::<Fault>)
        },
        zone.handled(0x6f40, body, last_received_seconds) == if !zone.replied_experience
            || zone.sent_ready {
            (zone, Seq::<Act>::empty(), None::<Fault>)
        } else if !zone.saw_profile {
            (zone, Seq::<Act>::empty(), Some(Fault::Refused(Refusal::ReadyBeforeProfile)))
        } else {
            (
                ZoneState { sent_ready: true, ready: true, ..zone },
                seq![
                    Act::Send(0xff41, filters()),
                    Act::Send(0xf540, version_message(false)),
                    Act::Send(0xf340, Seq::new(15, |i: int| 0u8)),
                    Act::Notify(NoticeState::Progress(ConnectionStage::EnteringWorld)),
                    Act::Notify(NoticeState::Progress(ConnectionStage::Ready)),
                    Act::Notify(
                        NoticeState::Status {
                            state: ConnectionState::Connected,
                            packets: zone.packets,
                            last_received_seconds: Some(last_received_seconds),
                        },
                    ),
                    Act::Notify(
                        NoticeState::Diagnostic(
                            "Quarm zone login sequence complete for "@ + zone.zone_name
                                + "; waiting for ongoing server traffic"@,
                        ),
                    ),
                ],
                None::<Fault>,
            )
        },
{
    if body.len() >= 96 && body.subrange(64, 64int + name.len()) == name && body[64int + name.len()]
        == 0 {
        let field = body.subrange(64, 96);
        assert forall|k: int| 0 <= k < name.len() implies field[k] != 0 by {
            assert(name[k] == body.subrange(64, 64int + name.len())[k]);
        }
        bytes::lemma_until_unique(field, 0, name.len() as int);
        assert(field.take(name.len() as int) =~= name);
        assert(bytes::until_nul(field) == name);
    }
    assert(bytes::zeros(15) =~= Seq::new(15, |i: int| 0u8));
}

/// A request for the version is answered each time, a logout and a handoff end the
/// session, and other packets change nothing.
pub proof fn law_zones_end(
    zone: ZoneState,
    opcode: u16,
    body: Seq<u8>,
    last_received_seconds: u64,
)
    requires
        opcode != 0x3640 && opcode != 0x3641 && opcode != 0x5b40 && opcode != 0xd840 && opcode
            != 0x6f40,
    ensures
        zone.handled(opcode, body, last_received_seconds) == (
            zone,
            if opcode == 0xf540 && asks_version(body) {
                seq![Act::Send(0xf540, version_message(true))]
            } else {
                Seq::empty()
            },
            if opcode == 0x5041 {
                Some(Fault::Refused(Refusal::LoggedOut))
            } else if opcode == 0x4d41 {
                Some(Fault::Refused(Refusal::NewZone))
            } else {
                None
            },
        ),
{
}

/// A packet of the zone is counted and told of until we are ready; then it is taken, and
/// what it communicates is recorded where it is not in error.
pub proof fn law_zone_packets_are_taken_in_order(
    zone: ZoneState,
    opcode: u16,
    body: Seq<u8>,
    last_received_seconds: u64,
    found: ChatOutcomeState,
)
    ensures
        ({
            let (next, acts, fault) = zone.received(opcode, body, last_received_seconds, found);
            let counted = ZoneState {
                packets: ((zone.packets + 1) % 0x1_0000_0000_0000_0000) as u64,
                ..zone
            };
            let told = if zone.ready {
                Seq::empty()
            } else {
                seq![
                    Act::Notify(
                        NoticeState::Diagnostic(
                            received_text("Quarm zone received 0x"@, opcode, body.len()),
                        ),
                    ),
                ]
            };
            let (taken, answers, error) = counted.handled(opcode, body, last_received_seconds);
            &&& next == taken && fault == error
            &&& error is Some ==> acts == told + answers
            &&& error is None ==> acts == told + answers + session::chat_record(
                taken.zone_name,
                found,
                opcode,
                body,
            )
        }),
{
    assert(zone.packets.wrapping_add(1) == (zone.packets + 1) % 0x1_0000_0000_0000_0000);
}

/// A list that says it has more servers than it holds is refused.
pub proof fn law_short_server_lists_are_refused(head: Seq<u8>, entries: Seq<Entry>)
    requires
        head.len() == 5,
        head[0] + 256 * head[1] > entries.len(),
        forall|i: int| 0 <= i < entries.len() ==> listable(#[trigger] entries[i]),
    ensures
        servers_in(head + list_bytes(entries)) == Err::<Seq<ServerState>, _>(
            Refusal::LegacyStringEnd,
        ),
{
    let whole = head + list_bytes(entries);
    assert(whole[0] == head[0] && whole[1] == head[1]);
    lemma_missing_entries(head, entries, (head[0] + 256 * head[1]) as nat);
}

proof fn lemma_missing_entries(before: Seq<u8>, entries: Seq<Entry>, count: nat)
    requires
        count > entries.len(),
        forall|i: int| 0 <= i < entries.len() ==> listable(#[trigger] entries[i]),
    ensures
        super::servers_at(before + list_bytes(entries), before.len() as int, count) == Err::<
            Seq<ServerState>,
            _,
        >(Refusal::LegacyStringEnd),
    decreases entries.len(),
{
    let body = before + list_bytes(entries);
    if entries.len() == 0 {
        assert(body.skip(before.len() as int) =~= Seq::empty());
    } else {
        let e = entries[0];
        assert(listable(e));
        let rest = entries.skip(1);
        let tail = list_bytes(rest);
        let behind_name = e.ip.push(0) + e.flags + tail;
        assert(body =~= before + (e.name.push(0) + behind_name));
        lemma_string(before, e.name, behind_name);
        let named = before + e.name.push(0);
        assert(body =~= named + (e.ip.push(0) + (e.flags + tail)));
        lemma_string(named, e.ip, e.flags + tail);
        let done = named + e.ip.push(0) + e.flags;
        assert(body =~= done + tail);
        assert forall|i: int| 0 <= i < rest.len() implies listable(#[trigger] rest[i]) by {
            assert(rest[i] == entries[i + 1]);
        }
        lemma_missing_entries(done, rest, (count - 1) as nat);
    }
}

/// A command goes out as it was encoded, and one that could not be is told with the
/// reason.
pub proof fn law_commands_go_out_encoded(body: Vec<u8>, error: String)
    ensures
        super::outbound(Ok(body)) == Act::Send(0x0741, body@),
        super::outbound(Err(error)) == Act::Notify(
            NoticeState::Diagnostic("Rejected invalid outbound chat command: "@ + error@),
        ),
{
}

} // verus!
