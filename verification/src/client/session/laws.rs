//! What each packet of a Titanium/P99-V62 session holds, and what comes of it.

use super::{
    chat_record, ciphertext_of, crc1_plain, crc1_response, credentials_from, credentials_header,
    decoded_chat, enter_packet, file_answer, list_request, login_info, named_in, play_request,
    ready_packet, server_position, unknown_warning, zone_entry_packet, AidState, ChatOutcomeState,
    CredentialState, End, LoginState, ServerState, WorldContext, WorldDoneState, WorldState,
};
use crate::assets::{self, AssetFault, FileChecksum};
use crate::bytes;
use crate::chat::{self, ChannelNumber};
use crate::client::step::{received_text, Act, Fault, NoticeState, Refusal};
use crate::client::{ConnectionStage, LoginError, RecordEventState};
use crate::outside;
use crate::p99::{self, CodecError};
use crate::text;
use vstd::prelude::*;

verus! {

/// The number whose four bytes start at `at`, the low one first.
pub open spec fn word(s: Seq<u8>, at: int) -> int {
    s[at] + 0x100 * s[at + 1] + 0x1_0000 * s[at + 2] + 0x100_0000 * s[at + 3]
}

/// The packets of the login, byte by byte: all of them are zero but for the kind in
/// front, the marks of the first two, and the server that is asked for.
pub proof fn law_login_packets(runtime_id: u32)
    ensures
        ready_packet().len() == 12,
        forall|i: int|
            0 <= i < 12 ==> #[trigger] ready_packet()[i] == if i == 0 {
                2int
            } else if i == 9 {
                8
            } else {
                0
            },
        credentials_header().len() == 10,
        forall|i: int|
            0 <= i < 10 ==> #[trigger] credentials_header()[i] == if i == 0 {
                3int
            } else if i == 5 {
                2
            } else {
                0
            },
        list_request().len() == 10,
        forall|i: int|
            0 <= i < 10 ==> #[trigger] list_request()[i] == if i == 0 {
                4int
            } else {
                0
            },
        play_request(runtime_id).len() == 14,
        forall|i: int|
            0 <= i < 10 ==> #[trigger] play_request(runtime_id)[i] == if i == 0 {
                5int
            } else {
                0
            },
        word(play_request(runtime_id), 10) == runtime_id,
{
}

/// The encrypted part of a login response is all whole blocks of eight bytes behind the
/// first ten, where there are three of them.
pub proof fn law_login_responses_are_cut_in_blocks(body: Seq<u8>)
    ensures
        body.len() < 34 ==> ciphertext_of(body) is None,
        body.len() >= 34 ==> {
            &&& ciphertext_of(body) is Some
            &&& ciphertext_of(body)->0.len() % 8 == 0
            &&& 0 <= body.len() - 10 - ciphertext_of(body)->0.len() < 8
            &&& ciphertext_of(body)->0 == body.subrange(
                10,
                10 + ciphertext_of(body)->0.len() as int,
            )
        },
{
}

/// What a login response gives: the account and a key of ten bytes, where the server
/// says that the login was right; and else why it gives none.
pub proof fn law_login_responses_give_credentials(
    body: Seq<u8>,
    bad_password: bool,
    clear: Option<Seq<u8>>,
    key: Seq<u8>,
)
    requires
        key.len() == 10,
        forall|i: int| 0 <= i < 10 ==> key[i] != 0,
    ensures
        ({
            let r = credentials_from(body, bad_password, clear);
            let plain = clear->0;
            let account = word(plain, 8);
            let refused = account == 0 || account == 0xffff_ffff || plain[0] != 1;
            &&& bad_password ==> r == Err::<CredentialState, _>(
                Fault::Login(LoginError::InvalidCredentials),
            )
            &&& !bad_password && body.len() < 34 ==> r == Err::<CredentialState, _>(
                Fault::Refused(Refusal::LoginResponse),
            )
            &&& !bad_password && body.len() >= 34 && clear is None ==> r == Err::<
                CredentialState,
                _,
            >(Fault::Refused(Refusal::LoginCipher))
            &&& !bad_password && body.len() >= 34 && clear is Some && plain.len() < 23 ==> r
                == Err::<CredentialState, _>(Fault::Refused(Refusal::LoginResponse))
            &&& !bad_password && body.len() >= 34 && clear is Some && plain.len() >= 23 && refused
                ==> r == Err::<CredentialState, _>(Fault::Refused(Refusal::LoginRejected))
            &&& !bad_password && body.len() >= 34 && clear is Some && plain.len() >= 23 && !refused
                && plain.subrange(12, 22) == key && plain[22] == 0 ==> r == Ok::<_, Fault>(
                CredentialState { account: account as u32, key },
            )
            &&& !bad_password && body.len() >= 34 && clear is Some && plain.len() >= 23 && !refused
                && (plain[22] != 0 || exists|i: int| 12 <= i < 22 && #[trigger] plain[i] == 0)
                ==> r == Err::<CredentialState, _>(Fault::Refused(Refusal::SessionKey))
        }),
{
    if clear is Some && clear->0.len() >= 23 {
        let plain = clear->0;
        let field = plain.subrange(12, 23);
        bytes::lemma_until(field, 0);
        let found = bytes::until_nul(field);
        if plain.subrange(12, 22) == key && plain[22] == 0 {
            assert forall|i: int| 0 <= i < 10 implies field[i] != 0 by {
                assert(key[i] == plain.subrange(12, 22)[i]);
            }
            bytes::lemma_until_unique(field, 0, 10);
            assert(field.take(10) =~= key);
        }
        if found.len() == 10 {
            assert(field[10] == 0);
            assert forall|i: int| 12 <= i < 22 implies #[trigger] plain[i] != 0 by {
                assert(field[i - 12] != 0);
            }
        }
    }
}

/// A server is found by its name without regard to case, at its first place in the
/// list.
pub proof fn law_servers_are_found_by_name(servers: Seq<ServerState>, name: Seq<u8>)
    ensures
        match server_position(servers, name) {
            Some(i) => {
                &&& i < servers.len()
                &&& bytes::lowered(servers[i as int].name) == bytes::lowered(name)
                &&& forall|k: int|
                    0 <= k < i ==> bytes::lowered((#[trigger] servers[k]).name) != bytes::lowered(name)
            },
            None => forall|k: int|
                0 <= k < servers.len() ==> bytes::lowered((#[trigger] servers[k]).name)
                    != bytes::lowered(name),
        },
    decreases servers.len(),
{
    if servers.len() > 0 {
        let rest = servers.skip(1);
        law_servers_are_found_by_name(rest, name);
        if bytes::lowered(servers[0].name) != bytes::lowered(name) {
            match server_position(rest, name) {
                Some(i) => {
                    assert(servers[i as int + 1] == rest[i as int]);
                    assert forall|k: int| 0 <= k < i + 1 implies bytes::lowered(
                        (#[trigger] servers[k]).name,
                    ) != bytes::lowered(name) by {
                        if k > 0 {
                            assert(servers[k] == rest[k - 1]);
                        }
                    }
                },
                None => {
                    assert forall|k: int| 0 <= k < servers.len() implies bytes::lowered(
                        (#[trigger] servers[k]).name,
                    ) != bytes::lowered(name) by {
                        if k > 0 {
                            assert(servers[k] == rest[k - 1]);
                        }
                    }
                },
            }
        }
    }
}

/// The credentials go out once, when the server is ready for them.
pub proof fn law_ready_servers_get_the_credentials(
    login: LoginState,
    server: Seq<u8>,
    body: Seq<u8>,
    aid: AidState,
)
    ensures
        ({
            let (next, acts, end) = login.received(server, 0x16, body, aid);
            &&& end is Continue
            &&& login.sent_credentials ==> next == login && acts.len() == 0
            &&& !login.sent_credentials ==> {
                &&& next == (LoginState { sent_credentials: true, ..login })
                &&& acts == seq![
                    Act::Notify(NoticeState::Progress(ConnectionStage::Authenticating)),
                    Act::Send(2, credentials_header() + aid.encrypted),
                ]
            }
        }),
{
}

/// Once the server gave credentials, they are kept and the servers are asked for.
pub proof fn law_accepted_logins_ask_for_servers(
    login: LoginState,
    server: Seq<u8>,
    body: Seq<u8>,
    aid: AidState,
)
    ensures
        ({
            let (next, acts, end) = login.received(server, 0x17, body, aid);
            let given = credentials_from(body, aid.bad_password, aid.clear);
            &&& given is Err ==> next == login && acts.len() == 0 && end == End::<
                (CredentialState, Seq<char>),
            >::Fail(given->Err_0)
            &&& given is Ok ==> {
                &&& next == (LoginState { credentials: Some(given->Ok_0), ..login })
                &&& end is Continue
                &&& acts == seq![
                    Act::Notify(NoticeState::Progress(ConnectionStage::SelectingServer)),
                    Act::Send(4, list_request()),
                    Act::Notify(
                        NoticeState::Diagnostic("Login server authenticated the account"@),
                    ),
                ]
            }
        }),
{
}

/// The server that is asked for is the first one of that name, where it is open, and
/// its address is the one that is gone to.
pub proof fn law_listed_servers_are_asked_for(
    login: LoginState,
    server: Seq<u8>,
    body: Seq<u8>,
    aid: AidState,
    i: int,
)
    ensures
        ({
            let (next, acts, end) = login.received(server, 0x18, body, aid);
            let servers = aid.servers->0;
            let known = body.len() >= 20 && aid.servers is Some;
            let found = 0 <= i < servers.len() && bytes::lowered(servers[i].name) == bytes::lowered(
                server,
            ) && forall|k: int|
                0 <= k < i ==> bytes::lowered((#[trigger] servers[k]).name) != bytes::lowered(server);
            &&& body.len() < 20 ==> next == login && acts.len() == 0 && end == End::<
                (CredentialState, Seq<char>),
            >::Fail(Fault::Refused(Refusal::ServerListTruncated))
            &&& body.len() >= 20 && aid.servers is None ==> next == login && acts.len() == 0 && end
                == End::<(CredentialState, Seq<char>)>::Fail(
                Fault::Refused(Refusal::ServerListInvalid),
            )
            &&& known && (forall|k: int|
                0 <= k < servers.len() ==> bytes::lowered((#[trigger] servers[k]).name)
                    != bytes::lowered(server)) ==> next == login && acts.len() == 0 && end == End::<
                (CredentialState, Seq<char>),
            >::Fail(Fault::Refused(Refusal::ServerAbsent))
            &&& known && found && servers[i].status != 0 && servers[i].status != 2 ==> next == login
                && acts.len() == 0 && end == End::<(CredentialState, Seq<char>)>::Fail(
                Fault::Refused(Refusal::ServerLocked),
            )
            &&& known && found && (servers[i].status == 0 || servers[i].status == 2) ==> {
                &&& next == (LoginState { selected: Some(servers[i].ip), ..login })
                &&& acts == seq![Act::Send(0x0d, play_request(servers[i].runtime_id))]
                &&& end is Continue
            }
        }),
{
    if aid.servers is Some {
        law_servers_are_found_by_name(aid.servers->0, server);
    }
}

/// The login ends with the server that lets us in, with the credentials it was asked
/// with. A server that does not, or that was not asked, ends it in an error.
pub proof fn law_the_login_ends_with_a_server(
    login: LoginState,
    server: Seq<u8>,
    body: Seq<u8>,
    aid: AidState,
)
    ensures
        ({
            let (next, acts, end) = login.received(server, 0x21, body, aid);
            let let_in = body.len() >= 20 && body[10] != 0;
            &&& next == login
            &&& !let_in ==> acts.len() == 0 && end == End::<(CredentialState, Seq<char>)>::Fail(
                Fault::Refused(Refusal::WorldDenied),
            )
            &&& let_in && login.credentials is None ==> acts == seq![Act::Close] && end == End::<
                (CredentialState, Seq<char>),
            >::Fail(Fault::Refused(Refusal::PlayBeforeLogin))
            &&& let_in && login.credentials is Some && login.selected is None ==> acts == seq![
                Act::Close,
            ] && end == End::<(CredentialState, Seq<char>)>::Fail(
                Fault::Refused(Refusal::PlayBeforeSelection),
            )
            &&& let_in && login.credentials is Some && login.selected is Some ==> {
                &&& acts == seq![
                    Act::Close,
                    Act::Notify(NoticeState::Progress(ConnectionStage::ConnectingWorld)),
                ]
                &&& end == End::Done((login.credentials->0, login.selected->0))
            }
        }),
{
}

/// Other packets of the login server change nothing.
pub proof fn law_other_login_packets_are_ignored(
    login: LoginState,
    server: Seq<u8>,
    opcode: u16,
    body: Seq<u8>,
    aid: AidState,
)
    requires
        opcode != 0x16 && opcode != 0x17 && opcode != 0x18 && opcode != 0x21,
    ensures
        login.received(server, opcode, body, aid) == (
            login,
            Seq::<Act>::empty(),
            End::<(CredentialState, Seq<char>)>::Continue,
        ),
{
}

/// The validation record before it is encrypted: the complement of the checksum and the
/// size of the spell file, the names of the host and of the user, the loopback address
/// and our own, each in its place, and zeros.
pub proof fn law_validation_record_layout(
    spells: FileChecksum,
    hostname: Seq<u8>,
    username: Seq<u8>,
    ip: Option<[u8; 4]>,
    i: int,
)
    requires
        hostname.len() < 16,
        username.len() < 16,
        spells.size <= u32::MAX,
    ensures
        ({
            let plain = crc1_plain(spells, hostname, username, ip);
            let host = 50 <= i < 50 + hostname.len();
            let user = 66 <= i < 66 + username.len();
            &&& plain.len() == 2056
            &&& word(plain, 0) == 0xffff_ffff - spells.crc32
            &&& word(plain, 4) == spells.size
            &&& 8 <= i < 12 ==> plain[i] == 0xff
            &&& plain[45] == 1 && plain[46] == 27
            &&& host ==> plain[i] == hostname[i - 50]
            &&& user ==> plain[i] == username[i - 66]
            &&& plain[82] == 127 && plain[83] == 0 && plain[84] == 0 && plain[85] == 1
            &&& 86 <= i < 90 ==> plain[i] == if ip is Some && (ip->0)@[0] != 127 {
                (ip->0)@[i - 86]
            } else {
                0
            }
            &&& 12 <= i < 2056 && i != 45 && i != 46 && !host && !user && !(82 <= i < 90)
                ==> plain[i] == 0
        }),
{
    let a = bytes::le32((u32::MAX - spells.crc32) as u32) + bytes::le32(spells.size as u32) + seq![
        0xffu8,
        0xffu8,
        0xffu8,
        0xffu8,
    ] + bytes::zeros(33) + seq![1u8, 27u8] + bytes::zeros(3);
    let b = super::padded(hostname, 16) + super::padded(username, 16);
    let c = seq![127u8, 0u8, 0u8, 1u8] + super::local_octets(ip) + bytes::zeros(1966);
    let plain = crc1_plain(spells, hostname, username, ip);
    assert(plain =~= a + b + c);
    assert(a.len() == 50 && b.len() == 32);
    assert(forall|k: int| 0 <= k < 50 ==> plain[k] == a[k]);
    assert(forall|k: int| 0 <= k < 32 ==> plain[50 + k] == #[trigger] b[k]);
    assert(forall|k: int| 0 <= k < c.len() ==> plain[82 + k] == #[trigger] c[k]);
    if 50 <= i < 82 {
        assert(plain[i] == b[i - 50]);
    }
    if 82 <= i < 2056 {
        assert(plain[i] == c[i - 82]);
    }
    assert(plain[82] == c[0] && plain[83] == c[1] && plain[84] == c[2] && plain[85] == c[3]);
}

/// The validation record is encrypted under the session key, but for its last eight
/// bytes, which go out as they are. What does not fit in it is refused.
pub proof fn law_validation_record_is_encrypted(
    spells: Option<FileChecksum>,
    hostname: Seq<u8>,
    username: Seq<u8>,
    ip: Option<[u8; 4]>,
    key: Seq<u8>,
)
    ensures
        ({
            let r = crc1_response(spells, hostname, username, ip, key);
            let fits = bytes::fits_field(hostname, 16) && bytes::fits_field(username, 16);
            let plain = crc1_plain(spells->0, hostname, username, ip);
            &&& spells is None ==> r == Err::<Seq<u8>, _>(Fault::Asset(AssetFault::NoSpells))
            &&& spells is Some && spells->0.size > u32::MAX ==> r == Err::<Seq<u8>, _>(
                Fault::Refused(Refusal::SpellSize),
            )
            &&& spells is Some && spells->0.size <= u32::MAX && !fits ==> r == Err::<Seq<u8>, _>(
                Fault::Refused(Refusal::FieldSize),
            )
            &&& spells is Some && spells->0.size <= u32::MAX && fits && key.len() == 0 ==> r
                == Err::<Seq<u8>, _>(Fault::Codec(CodecError::SessionKey))
            &&& spells is Some && spells->0.size <= u32::MAX && fits && key.len() > 0 ==> r == Ok::<
                _,
                Fault,
            >(p99::session_mixed(plain.take(2048), key) + plain.skip(2048))
        }),
{
}

/// A manifest is answered with the checksums of its files, and a warning names those
/// that the inventory says nothing of, where there are any.
pub proof fn law_manifests_are_answered(
    files: Map<Seq<u8>, Option<FileChecksum>>,
    manifest: Seq<u8>,
)
    ensures
        ({
            let (warnings, answer) = file_answer(files, manifest);
            let read = assets::manifest_entries(manifest);
            let unknown = assets::unknown(files, read->Ok_0);
            &&& read is Err ==> warnings.len() == 0 && answer == Err::<Seq<u8>, _>(
                Fault::Asset(read->Err_0),
            )
            &&& read is Ok ==> answer == Ok::<_, Fault>(
                assets::response_body(files, manifest, read->Ok_0),
            )
            &&& read is Ok && unknown.len() == 0 ==> warnings.len() == 0
            &&& read is Ok && unknown.len() > 0 ==> warnings == seq![
                Act::Notify(NoticeState::Diagnostic(unknown_warning(unknown))),
            ]
        }),
{
}

/// A channel message is decoded where it is long enough, and is else recorded as an
/// error; other packets are no communication.
pub proof fn law_communications_are_decoded(
    opcode: u16,
    body: Seq<u8>,
    include_raw: bool,
    channels: Seq<ChannelNumber>,
)
    ensures
        ({
            let found = decoded_chat(opcode, body, include_raw, channels);
            &&& opcode != chat::CHANNEL_MESSAGE <==> found is Nothing
            &&& opcode == chat::CHANNEL_MESSAGE && body.len() < 148 <==> found is Error
            &&& found matches ChatOutcomeState::Error(message) ==> message
                == "truncated channel message"@
            &&& found matches ChatOutcomeState::Event(event) ==> event == chat::channel_message(
                body,
                include_raw,
                channels,
            )
        }),
{
}

/// The login to the world is the account in decimal, a zero and the key, in a field of
/// 192 bytes, and then a mark and zeros.
pub proof fn law_world_login_layout(credentials: CredentialState, i: int)
    requires
        credentials.key.len() == 10,
    ensures
        ({
            let data = login_info(credentials);
            let digits = bytes::decimal(credentials.account as nat);
            &&& digits.len() <= 10
            &&& data.len() == 464
            &&& data.take(digits.len() as int) == digits
            &&& data[digits.len() as int] == 0
            &&& data.subrange(digits.len() as int + 1, digits.len() as int + 11) == credentials.key
            &&& data[192] == 0xcc
            &&& digits.len() + 11 <= i < 464 && i != 192 ==> data[i] == 0
        }),
{
    let digits = bytes::decimal(credentials.account as nat);
    lemma_decimal_length(credentials.account as nat, 10);
    let data = login_info(credentials);
    assert(data.take(digits.len() as int) =~= digits);
    assert(data.subrange(digits.len() as int + 1, digits.len() as int + 11) =~= credentials.key);
}

/// The number with one and `n` zeros.
spec fn tens(n: nat) -> nat
    decreases n,
{
    if n == 0 {
        1
    } else {
        10 * tens((n - 1) as nat)
    }
}

proof fn lemma_digit_count(v: nat, n: nat)
    requires
        n >= 1,
        v < tens(n),
    ensures
        1 <= bytes::decimal(v).len() <= n,
    decreases n,
{
    reveal_with_fuel(tens, 2);
    if v >= 10 {
        lemma_digit_count(v / 10, (n - 1) as nat);
    }
}

proof fn lemma_decimal_length(v: nat, n: nat)
    requires
        v <= 0xffff_ffff,
        n == 10,
    ensures
        1 <= bytes::decimal(v).len() <= n,
{
    reveal_with_fuel(tens, 11);
    lemma_digit_count(v, 10);
}

/// A character is listed where its name stands in the list with a zero behind it,
/// without regard to case.
pub proof fn law_characters_are_found_by_name(
    before: Seq<u8>,
    written: Seq<u8>,
    after: Seq<u8>,
    body: Seq<u8>,
    name: Seq<u8>,
)
    ensures
        bytes::lowered(written) == bytes::lowered(name) ==> named_in(
            before + written.push(0) + after,
            name,
        ),
        named_in(body, name) ==> exists|i: int|
            0 <= i && i + name.len() + 1 <= body.len() && bytes::lowered(
                #[trigger] body.subrange(i, i + name.len()),
            ) == bytes::lowered(name) && body[i + name.len()] == 0,
{
    if bytes::lowered(written) == bytes::lowered(name) {
        let whole = before + written.push(0) + after;
        let at = before.len() as int;
        assert(bytes::lowered(written).len() == written.len());
        assert(bytes::lowered(name).len() == name.len());
        assert(whole.subrange(at, at + name.len() + 1) =~= written.push(0));
        assert forall|k: int| 0 <= k < name.len() implies bytes::lower(#[trigger] written[k])
            == bytes::lower(name[k]) by {
            assert(bytes::lowered(written)[k] == bytes::lowered(name)[k]);
        }
        assert(bytes::lowered(written.push(0)) =~= bytes::lowered(name.push(0)));
        assert(bytes::lowered(whole.subrange(at, at + name.len() + 1)) == bytes::lowered(
            name.push(0),
        ));
    }
    if named_in(body, name) {
        let i = choose|i: int|
            0 <= i && i + name.len() + 1 <= body.len() && bytes::lowered(
                #[trigger] body.subrange(i, i + name.len() + 1),
            ) == bytes::lowered(name.push(0u8));
        let found = body.subrange(i, i + name.len() + 1);
        assert(bytes::lowered(found)[name.len() as int] == bytes::lowered(
            name.push(0u8),
        )[name.len() as int]);
        assert forall|k: int| 0 <= k < name.len() implies bytes::lower(
            #[trigger] body.subrange(i, i + name.len())[k],
        ) == bytes::lower(name[k]) by {
            assert(bytes::lowered(found)[k] == bytes::lowered(name.push(0u8))[k]);
        }
        assert(bytes::lowered(body.subrange(i, i + name.len())) =~= bytes::lowered(name));
    }
}

/// The packets with the name of the character: it stands first on the way into the
/// world and behind four zeros on the way into a zone, in a field of zeros.
pub proof fn law_character_packets(character: Seq<u8>, i: int)
    requires
        character.len() < 64,
    ensures
        enter_packet(character).len() == 72,
        0 <= i < 72 ==> enter_packet(character)[i] == if i < character.len() {
            character[i]
        } else {
            0
        },
        zone_entry_packet(character).len() == 68,
        0 <= i < 68 ==> zone_entry_packet(character)[i] == if 4 <= i < 4 + character.len() {
            character[i - 4]
        } else {
            0
        },
{
}

/// What a communication adds to the acts of a session: one record of it, or of why it
/// could not be read, and nothing for other packets.
pub proof fn law_records_of_communications(
    zone: Seq<char>,
    found: ChatOutcomeState,
    opcode: u16,
    body: Seq<u8>,
)
    ensures
        found is Nothing ==> chat_record(zone, found, opcode, body).len() == 0,
        found matches ChatOutcomeState::Event(event) ==> chat_record(zone, found, opcode, body)
            == seq![
            Act::Notify(NoticeState::Record { zone, event: RecordEventState::Chat(event) }),
        ],
        found matches ChatOutcomeState::Error(message) ==> chat_record(zone, found, opcode, body)
            == seq![
            Act::Notify(
                NoticeState::Record {
                    zone,
                    event: RecordEventState::DecodeError(opcode, outside::hex_of(body), message),
                },
            ),
        ],
{
}

/// What the world session tells of each packet, whatever comes of it: that it came, by
/// its opcode and length.
pub open spec fn noted(opcode: u16, body: Seq<u8>) -> Act {
    Act::Notify(NoticeState::Diagnostic(received_text("World received 0x"@, opcode, body.len())))
}

/// The challenge of the world is answered with our own nonce, encrypted under the key of
/// the challenge.
pub proof fn law_challenges_are_answered(
    world: WorldState,
    context: WorldContext,
    nonce: u64,
    body: Seq<u8>,
)
    ensures
        ({
            let (next, acts, end) = world.received(
                context,
                nonce,
                0x3c25,
                body,
                ChatOutcomeState::Nothing,
            );
            let (codec, answer) = p99::approval_encoded(
                world.codec,
                p99::approval_body(p99::encrypted_nonce(nonce, body)),
            );
            &&& p99::challenge_error(body) is Some ==> next == world && acts == seq![
                noted(0x3c25, body),
            ] && end == End::<WorldDoneState>::Fail(Fault::Codec(p99::challenge_error(body)->0))
            &&& p99::challenge_error(body) is None ==> {
                &&& next == (WorldState { codec, ..world })
                &&& acts == seq![noted(0x3c25, body), Act::Send(0x3c25, answer)]
                &&& end is Continue
            }
        }),
{
    let acts = world.received(context, nonce, 0x3c25, body, ChatOutcomeState::Nothing).1;
    let (codec, answer) = p99::approval_encoded(
        world.codec,
        p99::approval_body(p99::encrypted_nonce(nonce, body)),
    );
    lemma_noted(0x3c25, body);
    if p99::challenge_error(body) is None {
        assert(acts =~= seq![noted(0x3c25, body), Act::Send(0x3c25, answer)]);
    }
}

proof fn lemma_noted(opcode: u16, body: Seq<u8>)
    ensures
        super::world_greeting(ChatOutcomeState::Nothing, opcode, body) == seq![noted(opcode, body)],
{
    assert(super::world_greeting(ChatOutcomeState::Nothing, opcode, body) =~= seq![
        noted(opcode, body),
    ]);
}

/// The files of the world are answered with the validation record and then their
/// checksums, both encrypted.
pub proof fn law_world_files_are_answered(
    world: WorldState,
    context: WorldContext,
    nonce: u64,
    body: Seq<u8>,
)
    ensures
        ({
            let (next, acts, end) = world.received(
                context,
                nonce,
                0x52a4,
                body,
                ChatOutcomeState::Nothing,
            );
            let (codec, manifest, fault) = p99::manifest_read(world.codec, body);
            let (warnings, plain) = file_answer(context.assets@, manifest);
            let response = p99::response_encoded(codec, plain->Ok_0);
            let record = crc1_response(
                context.assets.spell_file(),
                text::utf8(context.identity.hostname@),
                text::utf8(context.identity.username@),
                context.local_ip,
                context.credentials@.key,
            );
            &&& next == (WorldState { codec, ..world })
            &&& fault is Some ==> acts == seq![noted(0x52a4, body)] && end == End::<
                WorldDoneState,
            >::Fail(Fault::Codec(fault->0))
            &&& fault is None && plain is Err ==> acts == seq![noted(0x52a4, body)] + warnings && end
                == End::<WorldDoneState>::Fail(plain->Err_0)
            &&& fault is None && plain is Ok && response is Err ==> acts == seq![
                noted(0x52a4, body),
            ] + warnings && end == End::<WorldDoneState>::Fail(Fault::Codec(response->Err_0))
            &&& fault is None && plain is Ok && response is Ok && record is Err ==> acts == seq![
                noted(0x52a4, body),
            ] + warnings && end == End::<WorldDoneState>::Fail(record->Err_0)
            &&& fault is None && plain is Ok && response is Ok && record is Ok ==> {
                &&& acts == seq![noted(0x52a4, body)] + warnings + seq![
                    Act::Send(0x5072, record->Ok_0),
                    Act::Send(0x1251, response->Ok_0),
                ]
                &&& end is Continue
            }
        }),
{
    let acts = world.received(context, nonce, 0x52a4, body, ChatOutcomeState::Nothing).1;
    let (codec, manifest, fault) = p99::manifest_read(world.codec, body);
    let (warnings, plain) = file_answer(context.assets@, manifest);
    let response = p99::response_encoded(codec, plain->Ok_0);
    let record = crc1_response(
        context.assets.spell_file(),
        text::utf8(context.identity.hostname@),
        text::utf8(context.identity.username@),
        context.local_ip,
        context.credentials@.key,
    );
    lemma_noted(0x52a4, body);
    if fault is Some {
        assert(acts =~= seq![noted(0x52a4, body)]);
    } else if plain is Ok && response is Ok && record is Ok {
        assert(acts =~= seq![noted(0x52a4, body)] + warnings + seq![
            Act::Send(0x5072, record->Ok_0),
            Act::Send(0x1251, response->Ok_0),
        ]);
    }
}

/// Validation is accepted by a single zero; everything else is refused and shown. Where
/// only the world is asked for, the session ends here.
pub proof fn law_validation_is_accepted_by_zero(
    world: WorldState,
    context: WorldContext,
    nonce: u64,
    body: Seq<u8>,
)
    ensures
        ({
            let (next, acts, end) = world.received(
                context,
                nonce,
                0x1251,
                body,
                ChatOutcomeState::Nothing,
            );
            let accepted = body.len() == 1 && body[0] == 0;
            let sent = seq![
                noted(0x1251, body),
                Act::Notify(NoticeState::Progress(ConnectionStage::SelectingCharacter)),
                Act::Notify(
                    NoticeState::Diagnostic("World accepted native V62 client validation"@),
                ),
                Act::Send(0x7752, seq![0u8, 0, 0, 0]),
                Act::Send(0x5e99, Seq::empty()),
            ];
            &&& !accepted ==> next == world && acts == seq![noted(0x1251, body)] && end == End::<
                WorldDoneState,
            >::Fail(Fault::Validation(outside::hex_of(body)))
            &&& accepted ==> next == (WorldState { accepted: true, ..world })
            &&& accepted && !context.world_only ==> acts == sent && end is Continue
            &&& accepted && context.world_only ==> acts == sent.push(Act::Close) && end
                == End::Done(WorldDoneState::Validated)
        }),
{
    let acts = world.received(context, nonce, 0x1251, body, ChatOutcomeState::Nothing).1;
    lemma_noted(0x1251, body);
    if body.len() == 1 && body[0] == 0 {
        assert(body =~= seq![0u8]);
    }
    assert(bytes::le32(0) =~= seq![0u8, 0, 0, 0]);
    let sent = seq![
        noted(0x1251, body),
        Act::Notify(NoticeState::Progress(ConnectionStage::SelectingCharacter)),
        Act::Notify(NoticeState::Diagnostic("World accepted native V62 client validation"@)),
        Act::Send(0x7752, seq![0u8, 0, 0, 0]),
        Act::Send(0x5e99, Seq::empty()),
    ];
    if body == seq![0u8] {
        if context.world_only {
            assert(acts =~= sent.push(Act::Close));
        } else {
            assert(acts =~= sent);
        }
    }
}

/// The character is chosen from the list once, after validation, and must be in it.
pub proof fn law_characters_are_chosen_once(
    world: WorldState,
    context: WorldContext,
    nonce: u64,
    body: Seq<u8>,
)
    ensures
        ({
            let (next, acts, end) = world.received(
                context,
                nonce,
                0x4513,
                body,
                ChatOutcomeState::Nothing,
            );
            let character = text::utf8(context.config.character@);
            let asked = world.accepted && !world.entered;
            &&& !asked ==> next == world && acts == seq![noted(0x4513, body)] && end is Continue
            &&& asked && !named_in(body, character) ==> next == world && acts == seq![
                noted(0x4513, body),
            ] && end == End::<WorldDoneState>::Fail(Fault::Refused(Refusal::CharacterAbsent))
            &&& asked && named_in(body, character) && !bytes::fits_field(character, 64) ==> next
                == world && acts == seq![noted(0x4513, body)] && end == End::<WorldDoneState>::Fail(
                Fault::Refused(Refusal::FieldSize),
            )
            &&& asked && named_in(body, character) && bytes::fits_field(character, 64) ==> {
                &&& next == (WorldState { entered: true, ..world })
                &&& acts == seq![
                    noted(0x4513, body),
                    Act::Send(0x7cba, enter_packet(character)),
                    Act::Notify(NoticeState::Progress(ConnectionStage::ConnectingZone)),
                ]
                &&& end is Continue
            }
        }),
{
    let acts = world.received(context, nonce, 0x4513, body, ChatOutcomeState::Nothing).1;
    let character = text::utf8(context.config.character@);
    lemma_noted(0x4513, body);
    if world.accepted && !world.entered {
        if named_in(body, character) && bytes::fits_field(character, 64) {
            assert(acts =~= seq![
                noted(0x4513, body),
                Act::Send(0x7cba, enter_packet(character)),
                Act::Notify(NoticeState::Progress(ConnectionStage::ConnectingZone)),
            ]);
        } else {
            assert(acts =~= seq![noted(0x4513, body)]);
        }
    }
}

/// The way to the zone: its host, which ends at a zero in a field of 128 bytes, its port
/// with the low byte first, and the checksums of the files that it asks for.
pub proof fn law_handoffs_name_the_zone(
    world: WorldState,
    context: WorldContext,
    nonce: u64,
    body: Seq<u8>,
    host: Seq<u8>,
)
    requires
        host.len() <= 128,
        forall|i: int| 0 <= i < host.len() ==> host[i] != 0,
    ensures
        ({
            let (next, acts, end) = world.received(
                context,
                nonce,
                0x61b6,
                body,
                ChatOutcomeState::Nothing,
            );
            let known = world.entered && body.len() >= 130;
            let here = body.take(host.len() as int) == host && (host.len() < 128 ==> body[
            host.len() as int] == 0);
            let manifest = p99::zone_manifest_read(world.codec, body);
            let (warnings, checksums) = file_answer(context.assets@, manifest->Ok_0);
            &&& next == world
            &&& !known ==> acts == seq![noted(0x61b6, body)] && end == End::<WorldDoneState>::Fail(
                Fault::Refused(Refusal::Handoff),
            )
            &&& known && here && !vstd::utf8::valid_utf8(host) ==> acts == seq![noted(0x61b6, body)]
                && end == End::<WorldDoneState>::Fail(Fault::Refused(Refusal::HostEncoding))
            &&& known && here && vstd::utf8::valid_utf8(host) && manifest is Err ==> acts == seq![
                noted(0x61b6, body),
            ] && end == End::<WorldDoneState>::Fail(Fault::Codec(manifest->Err_0))
            &&& known && here && vstd::utf8::valid_utf8(host) && manifest is Ok && checksums is Err
                ==> acts == seq![noted(0x61b6, body)] + warnings && end == End::<
                WorldDoneState,
            >::Fail(checksums->Err_0)
            &&& known && here && vstd::utf8::valid_utf8(host) && manifest is Ok && checksums is Ok
                ==> {
                &&& acts == seq![noted(0x61b6, body)] + warnings + seq![
                    Act::Send(0x509d, Seq::empty()),
                    Act::Close,
                ]
                &&& end == End::Done(
                    WorldDoneState::Zone {
                        host,
                        port: (body[128] + 256 * body[129]) as u16,
                        checksums: checksums->Ok_0,
                    },
                )
            }
        }),
{
    let acts = world.received(context, nonce, 0x61b6, body, ChatOutcomeState::Nothing).1;
    let manifest = p99::zone_manifest_read(world.codec, body);
    let (warnings, checksums) = file_answer(context.assets@, manifest->Ok_0);
    lemma_noted(0x61b6, body);
    if body.len() >= 130 && body.take(host.len() as int) == host && (host.len() < 128 ==> body[
    host.len() as int] == 0) {
        let field = body.take(128);
        assert forall|i: int| 0 <= i < host.len() implies field[i] != 0 by {
            assert(host[i] == body.take(host.len() as int)[i]);
        }
        bytes::lemma_until_unique(field, 0, host.len() as int);
        assert(field.take(host.len() as int) =~= host);
        assert(bytes::until_nul(field) == host);
    }
    let one = seq![noted(0x61b6, body)];
    assert(one + Seq::<Act>::empty() =~= one);
    let parting = seq![Act::Send(0x509d, Seq::empty()), Act::Close];
    assert(one + warnings.push(Act::Send(0x509d, Seq::empty())).push(Act::Close) =~= one + warnings
        + parting);
}

/// Other packets of the world are told and change nothing.
pub proof fn law_other_world_packets_are_told(
    world: WorldState,
    context: WorldContext,
    nonce: u64,
    opcode: u16,
    body: Seq<u8>,
)
    requires
        opcode != 0x3c25 && opcode != 0x52a4 && opcode != 0x1251 && opcode != 0x4513 && opcode
            != 0x61b6,
    ensures
        world.received(context, nonce, opcode, body, ChatOutcomeState::Nothing) == (
            world,
            seq![noted(opcode, body)],
            End::<WorldDoneState>::Continue,
        ),
{
    lemma_noted(opcode, body);
}

/// The warning names every file that the inventory says nothing of, in order and with
/// commas between them.
pub proof fn law_warnings_name_every_file(names: Seq<Seq<char>>, more: Seq<char>)
    requires
        names.len() > 0,
    ensures
        ({
            let head = "Warning: asset inventory has no entry for "@;
            let tail = "; sending checksum 0"@;
            let encoded = names.map_values(|n: Seq<char>| text::utf8(n));
            &&& unknown_warning(encoded) == head + text::joined(names, ", "@) + tail
            &&& unknown_warning(encoded.push(text::utf8(more))) == head + (text::joined(names, ", "@)
                + ", "@ + more) + tail
        }),
{
    let encoded = names.map_values(|n: Seq<char>| text::utf8(n));
    let longer = encoded.push(text::utf8(more));
    let back = encoded.map_values(|n: Seq<u8>| vstd::utf8::decode_utf8(n));
    let all = longer.map_values(|n: Seq<u8>| vstd::utf8::decode_utf8(n));
    assert forall|i: int| 0 <= i < names.len() implies #[trigger] back[i] == names[i] by {
        vstd::utf8::encode_utf8_decode_utf8(names[i]);
    }
    vstd::utf8::encode_utf8_decode_utf8(more);
    assert(back =~= names);
    assert(all =~= names.push(more));
    assert(names.push(more).drop_last() =~= names);
}

} // verus!
