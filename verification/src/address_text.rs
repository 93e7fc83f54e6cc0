//! The text forms of addresses: `ip:port`, and
//! `/ip4/<ip>/<protocol>/<port>` or `/ip6/<ip>/<protocol>/<port>`.
//!
//! IPv4 addresses are read and written here. What can only be an IPv6 address
//! is handed back as text, for the caller to read.

use crate::address::{octets_value, IpAddr, MultiAddr, SocketAddr};
use crate::text::{
    decimal, digit, digit_value, encode_decimal, is_digit, is_number, law_decimal_round_trip,
    law_digits_are_distinct, number,
};
use vstd::prelude::*;
use vstd::string::*;

verus! {

/// The pieces of a text between occurrences of a separator.
pub open spec fn split(text: Seq<char>, separator: char) -> Seq<Seq<char>>
    decreases text.len(),
{
    if text.len() == 0 {
        seq![Seq::empty()]
    } else {
        let pieces = split(text.drop_last(), separator);
        if text.last() == separator {
            pieces.push(Seq::empty())
        } else {
            pieces.drop_last().push(pieces.last().push(text.last()))
        }
    }
}

/// Whether text is a decimal octet without leading zeros.
pub open spec fn is_octet(text: Seq<char>) -> bool {
    is_number(text) && text.len() <= 3 && (text.len() > 1 ==> text[0] != '0') && number(text) <= 255
}

/// The IPv4 address that a text spells: four octets with dots between them.
pub open spec fn ipv4_of(text: Seq<char>) -> Option<IpAddr> {
    let parts = split(text, '.');
    if parts.len() == 4 && is_octet(parts[0]) && is_octet(parts[1]) && is_octet(parts[2])
        && is_octet(parts[3]) {
        Some(
            IpAddr::V4(
                octets_value(
                    number(parts[0]) as u8,
                    number(parts[1]) as u8,
                    number(parts[2]) as u8,
                    number(parts[3]) as u8,
                ) as u32,
            ),
        )
    } else {
        None
    }
}

/// The port that decimal digits spell.
pub open spec fn port_of(text: Seq<char>) -> Option<u16> {
    if is_number(text) && number(text) <= 0xffff {
        Some(number(text) as u16)
    } else {
        None
    }
}

/// The port that decimal digits spell, after an optional plus sign.
pub open spec fn signed_port_of(text: Seq<char>) -> Option<u16> {
    if text.len() > 0 && text[0] == '+' {
        port_of(text.drop_first())
    } else {
        port_of(text)
    }
}

/// The IPv4 socket address that a text spells: an address, a colon and a port.
pub open spec fn socket_of(text: Seq<char>) -> Option<SocketAddr> {
    let parts = split(text, ':');
    if parts.len() == 2 && ipv4_of(parts[0]) is Some && port_of(parts[1]) is Some {
        Some(
            SocketAddr {
                ip: ipv4_of(parts[0])->0,
                port: port_of(parts[1])->0,
                flowinfo: 0,
                scope_id: 0,
            },
        )
    } else {
        None
    }
}

/// The nonempty pieces of a list.
pub open spec fn nonempty(pieces: Seq<Seq<char>>) -> Seq<Seq<char>> {
    pieces.filter(|piece: Seq<char>| piece.len() > 0)
}

/// The host and port of a text that begins with an IP protocol and names a
/// transport protocol and a port.
pub open spec fn segments_of(text: Seq<char>) -> Option<(Seq<char>, u16)> {
    let parts = nonempty(split(text, '/'));
    let prefixed = text.len() >= 5 && (text.take(5) == "/ip4/"@ || text.take(5) == "/ip6/"@);
    if prefixed && parts.len() >= 4 && (parts[2] == "tcp"@ || parts[2] == "udp"@ || parts[2]
        == "quic"@) && signed_port_of(parts[3]) is Some {
        Some((parts[1], signed_port_of(parts[3])->0))
    } else {
        None
    }
}

/// The IPv4 socket address that a text spells in either form.
pub open spec fn ipv4_address_of(text: Seq<char>) -> Option<SocketAddr> {
    match socket_of(text) {
        Some(socket) => Some(socket),
        None => match segments_of(text) {
            Some((host, port)) => match ipv4_of(host) {
                Some(ip) => Some(SocketAddr { ip, port, flowinfo: 0, scope_id: 0 }),
                None => None,
            },
            None => None,
        },
    }
}

/// What a text says of an address.
pub enum AddressText {
    /// The text spells this address.
    Address(MultiAddr),
    /// The text spells this port at a host that is no IPv4 address.
    Host {
        /// Text of the host.
        host: String,
        /// Port.
        port: u16,
    },
    /// The text is neither; it may still be an IPv6 socket address.
    Other,
}

fn chars_of(text: &str) -> (characters: Vec<char>)
    ensures
        characters@ == text@,
{
    let mut characters: Vec<char> = Vec::new();
    for character in walk: text.chars()
        invariant
            characters@ == walk.seq().take(walk.index() as int),
            walk.seq() == text@,
    {
        characters.push(character);
    }
    characters
}

fn string_of(characters: &Vec<char>) -> (text: String)
    ensures
        text@ == characters@,
{
    let mut text = String::new();
    let mut index: usize = 0;
    while index < characters.len()
        invariant
            index <= characters@.len(),
            text@ == characters@.take(index as int),
        decreases characters@.len() - index,
    {
        text.push(characters[index]);
        proof {
            assert(characters@.take(index as int + 1) =~= characters@.take(index as int).push(
                characters@[index as int],
            ));
        }
        index += 1;
    }
    assert(characters@.take(characters@.len() as int) =~= characters@);
    text
}

/// The characters of each piece.
pub open spec fn piece_views(pieces: Seq<Vec<char>>) -> Seq<Seq<char>> {
    pieces.map(|_i: int, p: Vec<char>| p@)
}

fn split_at(text: &Vec<char>, separator: char) -> (pieces: Vec<Vec<char>>)
    ensures
        piece_views(pieces@) == split(text@, separator),
        pieces@.len() > 0,
{
    let mut pieces: Vec<Vec<char>> = Vec::new();
    let mut current: Vec<char> = Vec::new();
    let mut index: usize = 0;
    proof {
        assert(piece_views(pieces@).push(current@) =~= split(text@.take(0), separator));
    }
    while index < text.len()
        invariant
            index <= text@.len(),
            piece_views(pieces@).push(current@) == split(text@.take(index as int), separator),
        decreases text@.len() - index,
    {
        let character = text[index];
        let ghost before = split(text@.take(index as int), separator);
        proof {
            assert(text@.take(index as int + 1).drop_last() =~= text@.take(index as int));
            assert(before.last() == current@);
            assert(before.drop_last() =~= piece_views(pieces@));
        }
        if character == separator {
            let mut finished: Vec<char> = Vec::new();
            core::mem::swap(&mut finished, &mut current);
            let ghost done = pieces@;
            pieces.push(finished);
            proof {
                assert(piece_views(pieces@) =~= piece_views(done).push(finished@));
                assert(current@ =~= Seq::<char>::empty());
            }
        } else {
            current.push(character);
        }
        index += 1;
    }
    let ghost done = pieces@;
    let ghost last = current@;
    pieces.push(current);
    proof {
        assert(piece_views(pieces@) =~= piece_views(done).push(last));
        assert(text@.take(text@.len() as int) =~= text@);
    }
    pieces
}

/// Read decimal digits as a number, up to a limit.
fn read_number(text: &Vec<char>, from: usize, limit: u32) -> (value: Option<u32>)
    requires
        from <= text@.len(),
        limit <= 0xffff,
    ensures
        ({
            let digits = text@.skip(from as int);
            value == if is_number(digits) && number(digits) <= limit {
                Some(number(digits) as u32)
            } else {
                None::<u32>
            }
        }),
{
    let ghost digits = text@.skip(from as int);
    if from == text.len() {
        return None;
    }
    let mut value: u32 = 0;
    let mut index: usize = from;
    let mut fits: bool = true;
    while index < text.len()
        invariant
            from <= index <= text@.len(),
            limit <= 0xffff,
            digits == text@.skip(from as int),
            forall|i: int| 0 <= i < index - from ==> is_digit(#[trigger] digits[i]),
            fits ==> value == number(digits.take(index - from)) && value <= limit,
            !fits ==> number(digits.take(index - from)) > limit,
        decreases text@.len() - index,
    {
        let character = text[index];
        let ghost at = index - from;
        proof {
            assert(digits[at] == character);
            assert(digits.take(at + 1).drop_last() =~= digits.take(at));
            assert(digits.take(at + 1).last() == character);
        }
        let code: u32 = character as u32;
        if code < '0' as u32 || code > '9' as u32 {
            proof {
                assert(!is_digit(digits[at]));
            }
            return None;
        }
        if fits {
            value = value * 10 + (code - '0' as u32);
            if value > limit {
                fits = false;
            }
        }
        index += 1;
    }
    proof {
        assert(digits.take(digits.len() as int) =~= digits);
    }
    if fits {
        Some(value)
    } else {
        None
    }
}

fn read_octet(text: &Vec<char>) -> (value: Option<u8>)
    ensures
        value == if is_octet(text@) {
            Some(number(text@) as u8)
        } else {
            None::<u8>
        },
{
    if text.len() > 3 || (text.len() > 1 && text[0] == '0') {
        return None;
    }
    proof {
        assert(text@.skip(0) =~= text@);
    }
    match read_number(text, 0, 255) {
        Some(value) => Some(value as u8),
        None => None,
    }
}

fn read_port(text: &Vec<char>, from: usize) -> (port: Option<u16>)
    requires
        from <= text@.len(),
    ensures
        port == port_of(text@.skip(from as int)),
{
    match read_number(text, from, 0xffff) {
        Some(value) => Some(value as u16),
        None => None,
    }
}

fn read_ipv4(text: &Vec<char>) -> (ip: Option<IpAddr>)
    ensures
        ip == ipv4_of(text@),
{
    let parts = split_at(text, '.');
    let ghost views = piece_views(parts@);
    if parts.len() != 4 {
        return None;
    }
    proof {
        assert(views[0] == parts@[0]@);
        assert(views[1] == parts@[1]@);
        assert(views[2] == parts@[2]@);
        assert(views[3] == parts@[3]@);
    }
    match (
        read_octet(&parts[0]),
        read_octet(&parts[1]),
        read_octet(&parts[2]),
        read_octet(&parts[3]),
    ) {
        (Some(a), Some(b), Some(c), Some(d)) => Some(IpAddr::v4(a, b, c, d)),
        _ => None,
    }
}

fn read_socket(text: &Vec<char>) -> (socket: Option<SocketAddr>)
    ensures
        socket == socket_of(text@),
{
    let parts = split_at(text, ':');
    let ghost views = piece_views(parts@);
    if parts.len() != 2 {
        return None;
    }
    proof {
        assert(views[0] == parts@[0]@);
        assert(views[1] == parts@[1]@);
        assert(parts@[1]@.skip(0) =~= parts@[1]@);
    }
    match (read_ipv4(&parts[0]), read_port(&parts[1], 0)) {
        (Some(ip), Some(port)) => Some(SocketAddr::new(ip, port)),
        _ => None,
    }
}

fn equals(characters: &Vec<char>, text: &str) -> (same: bool)
    ensures
        same == (characters@ == text@),
{
    let other = chars_of(text);
    begins_with(characters, &other) && characters.len() == other.len()
}

fn begins_with(text: &Vec<char>, prefix: &Vec<char>) -> (result: bool)
    ensures
        result == (text@.len() >= prefix@.len() && text@.take(prefix@.len() as int) == prefix@),
        result && text@.len() == prefix@.len() ==> text@ == prefix@,
        !result ==> text@ != prefix@,
{
    if text.len() < prefix.len() {
        return false;
    }
    let ghost head = text@.take(prefix@.len() as int);
    let mut index: usize = 0;
    while index < prefix.len()
        invariant
            index <= prefix@.len() <= text@.len(),
            head == text@.take(prefix@.len() as int),
            forall|i: int| 0 <= i < index ==> #[trigger] text@[i] == prefix@[i],
        decreases prefix@.len() - index,
    {
        if text[index] != prefix[index] {
            proof {
                assert(head[index as int] != prefix@[index as int]);
            }
            return false;
        }
        index += 1;
    }
    proof {
        assert(head =~= prefix@);
        if text@.len() == prefix@.len() {
            assert(text@ =~= prefix@);
        }
    }
    true
}

fn drop_empty(pieces: Vec<Vec<char>>) -> (kept: Vec<Vec<char>>)
    ensures
        piece_views(kept@) == nonempty(piece_views(pieces@)),
{
    let ghost views = piece_views(pieces@);
    let mut kept: Vec<Vec<char>> = Vec::new();
    let mut index: usize = 0;
    proof {
        assert(piece_views(kept@) =~= nonempty(views.take(0))) by {
            reveal(Seq::filter);
        }
    }
    while index < pieces.len()
        invariant
            index <= pieces@.len(),
            views == piece_views(pieces@),
            piece_views(kept@) == nonempty(views.take(index as int)),
        decreases pieces@.len() - index,
    {
        let ghost before = kept@;
        let ghost taken = views.take(index as int + 1);
        proof {
            assert(taken.drop_last() =~= views.take(index as int));
            assert(taken.last() == pieces@[index as int]@);
            reveal(Seq::filter);
        }
        if pieces[index].len() > 0 {
            let piece = copy_chars(&pieces[index]);
            kept.push(piece);
            proof {
                assert(piece_views(kept@) =~= piece_views(before).push(pieces@[index as int]@));
            }
        }
        index += 1;
    }
    assert(views.take(views.len() as int) =~= views);
    kept
}

fn copy_chars(characters: &Vec<char>) -> (copy: Vec<char>)
    ensures
        copy@ == characters@,
{
    let mut copy: Vec<char> = Vec::new();
    let mut index: usize = 0;
    while index < characters.len()
        invariant
            index <= characters@.len(),
            copy@ == characters@.take(index as int),
        decreases characters@.len() - index,
    {
        copy.push(characters[index]);
        proof {
            assert(characters@.take(index as int + 1) =~= characters@.take(index as int).push(
                characters@[index as int],
            ));
        }
        index += 1;
    }
    assert(characters@.take(characters@.len() as int) =~= characters@);
    copy
}

fn read_signed_port(text: &Vec<char>) -> (port: Option<u16>)
    ensures
        port == signed_port_of(text@),
{
    if text.len() > 0 && text[0] == '+' {
        proof {
            assert(text@.skip(1) =~= text@.drop_first());
        }
        read_port(text, 1)
    } else {
        proof {
            assert(text@.skip(0) =~= text@);
        }
        read_port(text, 0)
    }
}

fn read_segments(text: &Vec<char>) -> (segments: Option<(Vec<char>, u16)>)
    ensures
        match segments {
            Some((host, port)) => segments_of(text@) == Some((host@, port)),
            None => segments_of(text@) is None,
        },
{
    let ip4 = chars_of("/ip4/");
    let ip6 = chars_of("/ip6/");
    proof {
        reveal_strlit("/ip4/");
        reveal_strlit("/ip6/");
    }
    if !begins_with(text, &ip4) && !begins_with(text, &ip6) {
        return None;
    }
    let parts = drop_empty(split_at(text, '/'));
    let ghost views = piece_views(parts@);
    if parts.len() < 4 {
        return None;
    }
    proof {
        assert(views[1] == parts@[1]@);
        assert(views[2] == parts@[2]@);
        assert(views[3] == parts@[3]@);
    }
    if !equals(&parts[2], "tcp") && !equals(&parts[2], "udp") && !equals(&parts[2], "quic") {
        return None;
    }
    match read_signed_port(&parts[3]) {
        Some(port) => Some((copy_chars(&parts[1]), port)),
        None => None,
    }
}

/// Read a text as an address.
pub fn parse_address(text: &str) -> (parsed: AddressText)
    ensures
        match parsed {
            AddressText::Address(address) => ipv4_address_of(text@) == Some(address.socket_addr)
                && address.transport is Quic && address.owner is None,
            AddressText::Host { host, port } => socket_of(text@) is None && segments_of(text@)
                == Some((host@, port)) && ipv4_of(host@) is None,
            AddressText::Other => socket_of(text@) is None && segments_of(text@) is None,
        },
{
    let characters = chars_of(text);
    match read_socket(&characters) {
        Some(socket) => AddressText::Address(MultiAddr::new(socket)),
        None => match read_segments(&characters) {
            Some((host, port)) => match read_ipv4(&host) {
                Some(ip) => AddressText::Address(MultiAddr::from_ip_port(ip, port)),
                None => AddressText::Host { host: string_of(&host), port },
            },
            None => AddressText::Other,
        },
    }
}

/// The text of an IPv4 address.
pub open spec fn ipv4_text(value: nat) -> Seq<char> {
    decimal(value / 0x100_0000) + seq!['.'] + decimal(value / 0x1_0000 % 256) + seq!['.'] + decimal(
        value / 256 % 256,
    ) + seq!['.'] + decimal(value % 256)
}

/// The text of an IPv4 socket address.
pub open spec fn socket_text(value: nat, port: nat) -> Seq<char> {
    ipv4_text(value) + seq![':'] + decimal(port)
}

impl MultiAddr {
    /// The `ip:port` text of an IPv4 address.
    pub fn ipv4_socket_text(&self) -> (text: Option<String>)
        ensures
            match self.socket_addr.ip {
                IpAddr::V4(value) => text matches Some(t) && t@ == socket_text(
                    value as nat,
                    self.socket_addr.port as nat,
                ),
                IpAddr::V6(_) => text is None,
            },
    {
        match self.socket_addr.ip {
            IpAddr::V4(value) => {
                let mut text = encode_decimal((value / 0x100_0000) as u64);
                text.push('.');
                text.append(encode_decimal((value / 0x1_0000 % 256) as u64).as_str());
                text.push('.');
                text.append(encode_decimal((value / 256 % 256) as u64).as_str());
                text.push('.');
                text.append(encode_decimal((value % 256) as u64).as_str());
                text.push(':');
                text.append(encode_decimal(self.socket_addr.port as u64).as_str());
                proof {
                    assert(text@ =~= socket_text(value as nat, self.socket_addr.port as nat));
                }
                Some(text)
            },
            IpAddr::V6(_) => None,
        }
    }
}

proof fn lemma_split_tail(head: Seq<char>, tail: Seq<char>, separator: char)
    requires
        forall|i: int| 0 <= i < tail.len() ==> tail[i] != separator,
    ensures
        split(head.push(separator) + tail, separator) == split(head, separator).push(tail),
    decreases tail.len(),
{
    let text = head.push(separator) + tail;
    if tail.len() == 0 {
        assert(text =~= head.push(separator));
        assert(text.drop_last() =~= head);
        assert(tail =~= Seq::<char>::empty());
    } else {
        lemma_split_tail(head, tail.drop_last(), separator);
        assert(text.drop_last() =~= head.push(separator) + tail.drop_last());
        assert(tail =~= tail.drop_last().push(tail.last()));
        assert(split(text, separator) =~= split(head, separator).push(tail));
    }
}

proof fn lemma_split_whole(text: Seq<char>, separator: char)
    requires
        forall|i: int| 0 <= i < text.len() ==> text[i] != separator,
    ensures
        split(text, separator) == seq![text],
    decreases text.len(),
{
    if text.len() > 0 {
        lemma_split_whole(text.drop_last(), separator);
        assert(text =~= text.drop_last().push(text.last()));
        assert(split(text, separator) =~= seq![text]);
    } else {
        assert(text =~= Seq::<char>::empty());
    }
}

proof fn lemma_decimal_shape(value: nat)
    requires
        value > 0,
    ensures
        decimal(value).len() > 0,
        decimal(value)[0] != '0',
    decreases value,
{
    if value >= 10 {
        lemma_decimal_shape(value / 10);
        assert(decimal(value)[0] == decimal(value / 10)[0]);
    }
}

proof fn lemma_decimal_is_octet(value: nat)
    requires
        value < 256,
    ensures
        is_octet(decimal(value)),
        number(decimal(value)) == value,
        forall|i: int| 0 <= i < decimal(value).len() ==> is_digit(#[trigger] decimal(value)[i]),
{
    law_decimal_round_trip(value);
    reveal_with_fuel(decimal, 3);
    assert(decimal(value).len() <= 3);
    if value > 0 {
        lemma_decimal_shape(value);
    }
}

/// The text of an IPv4 address is read back as that address, and holds no
/// colon.
pub proof fn law_ipv4_text_round_trip(value: u32)
    ensures
        ipv4_of(ipv4_text(value as nat)) == Some(IpAddr::V4(value)),
        !ipv4_text(value as nat).contains(':'),
{
    let v = value as nat;
    let (a, b, c, d) = (v / 0x100_0000, v / 0x1_0000 % 256, v / 256 % 256, v % 256);
    lemma_decimal_is_octet(a);
    lemma_decimal_is_octet(b);
    lemma_decimal_is_octet(c);
    lemma_decimal_is_octet(d);
    let t1 = decimal(a);
    let t2 = t1.push('.') + decimal(b);
    let t3 = t2.push('.') + decimal(c);
    let t4 = t3.push('.') + decimal(d);
    assert(ipv4_text(v) =~= t4);
    lemma_split_whole(t1, '.');
    lemma_split_tail(t1, decimal(b), '.');
    lemma_split_tail(t2, decimal(c), '.');
    lemma_split_tail(t3, decimal(d), '.');
    let parts = split(t4, '.');
    assert(parts =~= seq![decimal(a), decimal(b), decimal(c), decimal(d)]);
    assert(octets_value(a as u8, b as u8, c as u8, d as u8) == value);
    assert forall|i: int| 0 <= i < t4.len() implies t4[i] != ':' by {
        let l1 = t1.len() as int;
        let l2 = t2.len() as int;
        let l3 = t3.len() as int;
        if i < l1 {
            assert(t4[i] == decimal(a)[i]);
        } else if l1 < i < l2 {
            assert(t4[i] == decimal(b)[i - l1 - 1]);
        } else if l2 < i < l3 {
            assert(t4[i] == decimal(c)[i - l2 - 1]);
        } else if l3 < i {
            assert(t4[i] == decimal(d)[i - l3 - 1]);
        }
    }
}

/// The `ip:port` text of an IPv4 socket address is read back as that address.
pub proof fn law_socket_text_round_trip(value: u32, port: u16)
    ensures
        ipv4_address_of(socket_text(value as nat, port as nat)) == Some(
            (SocketAddr { ip: IpAddr::V4(value), port, flowinfo: 0, scope_id: 0 }),
        ),
{
    law_ipv4_text_round_trip(value);
    law_decimal_round_trip(port as nat);
    let host = ipv4_text(value as nat);
    let digits = decimal(port as nat);
    assert(socket_text(value as nat, port as nat) =~= host.push(':') + digits);
    lemma_split_whole(host, ':');
    lemma_split_tail(host, digits, ':');
    assert(split(host.push(':') + digits, ':') =~= seq![host, digits]);
}

/// Pieces with a separator between them.
pub open spec fn rejoined(pieces: Seq<Seq<char>>, separator: char) -> Seq<char>
    decreases pieces.len(),
{
    if pieces.len() == 0 {
        Seq::empty()
    } else if pieces.len() == 1 {
        pieces[0]
    } else {
        rejoined(pieces.drop_last(), separator).push(separator) + pieces.last()
    }
}

/// A text is its pieces with the separator between them, and no piece holds the
/// separator.
pub proof fn law_pieces_make_up_the_text(text: Seq<char>, separator: char)
    ensures
        split(text, separator).len() > 0,
        rejoined(split(text, separator), separator) == text,
        forall|i: int|
            0 <= i < split(text, separator).len() ==> !(#[trigger] split(
                text,
                separator,
            )[i]).contains(separator),
    decreases text.len(),
{
    let pieces = split(text, separator);
    if text.len() > 0 {
        let before = split(text.drop_last(), separator);
        law_pieces_make_up_the_text(text.drop_last(), separator);
        assert(text =~= text.drop_last().push(text.last()));
        if text.last() == separator {
            assert(pieces.drop_last() =~= before);
            assert(rejoined(pieces, separator) =~= text);
            assert forall|i: int| 0 <= i < pieces.len() implies !(#[trigger] pieces[i]).contains(
                separator,
            ) by {
                if i < before.len() {
                    assert(pieces[i] == before[i]);
                }
            }
        } else {
            assert(pieces.drop_last() =~= before.drop_last());
            if before.len() > 1 {
                assert(rejoined(pieces, separator) =~= text);
            } else {
                assert(before[0] == before.last());
                assert(rejoined(pieces, separator) =~= text);
            }
            assert forall|i: int| 0 <= i < pieces.len() implies !(#[trigger] pieces[i]).contains(
                separator,
            ) by {
                if i < before.len() - 1 {
                    assert(pieces[i] == before[i]);
                } else {
                    let last = before[before.len() - 1];
                    assert(!last.contains(separator));
                    assert(pieces[i] == last.push(text.last()));
                    if pieces[i].contains(separator) {
                        let k = pieces[i].index_of(separator);
                        assert(last[k] == separator);
                    }
                }
            }
        }
    } else {
        assert(rejoined(pieces, separator) =~= text);
    }
}

proof fn lemma_digit_is_its_value(character: char)
    requires
        is_digit(character),
    ensures
        digit_value(character) < 10,
        digit(digit_value(character)) == character,
{
    let value = digit_value(character);
    law_digits_are_distinct(value, 0);
    assert(digit(value) as u32 == character as u32);
}

proof fn lemma_plain_number_is_decimal(text: Seq<char>)
    requires
        is_number(text),
        text.len() > 1 ==> text[0] != '0',
    ensures
        decimal(number(text)) == text,
        number(text) == 0 ==> text.len() == 1,
    decreases text.len(),
{
    reveal_with_fuel(number, 2);
    let rest = text.drop_last();
    assert(is_digit(text[text.len() - 1]));
    lemma_digit_is_its_value(text[text.len() - 1]);
    if text.len() > 1 {
        assert forall|i: int| 0 <= i < rest.len() implies is_digit(#[trigger] rest[i]) by {
            assert(rest[i] == text[i]);
        }
        assert(rest[0] == text[0]);
        lemma_plain_number_is_decimal(rest);
        if number(rest) == 0 {
            assert(rest.len() == 1);
            assert(rest.drop_last() =~= Seq::<char>::empty());
            assert(is_digit(rest[0]));
        }
        assert(number(text) >= 10);
        assert(number(text) / 10 == number(rest));
        assert(number(text) % 10 == digit_value(text.last()));
        assert(decimal(number(text)) == decimal(number(rest)).push(digit(number(text) % 10)));
        assert(decimal(number(text)) =~= text);
    } else {
        assert(rest =~= Seq::<char>::empty());
        assert(number(text) == digit_value(text[0]));
        assert(decimal(number(text)) == seq![digit(number(text))]);
        assert(decimal(number(text)) =~= text);
    }
}

/// An octet has one text: the decimal one, without leading zeros.
pub proof fn law_octets_have_one_text(text: Seq<char>)
    ensures
        is_octet(text) <==> exists|value: nat| value <= 255 && text == #[trigger] decimal(value),
{
    if is_octet(text) {
        lemma_plain_number_is_decimal(text);
        assert(text == decimal(number(text)));
    }
    if exists|value: nat| value <= 255 && text == #[trigger] decimal(value) {
        let value = choose|value: nat| value <= 255 && text == #[trigger] decimal(value);
        lemma_decimal_is_octet(value);
    }
}

proof fn lemma_four_parts(parts: Seq<Seq<char>>, separator: char)
    requires
        parts.len() == 4,
    ensures
        rejoined(parts, separator) == parts[0] + seq![separator] + parts[1] + seq![separator]
            + parts[2] + seq![separator] + parts[3],
{
    let three = parts.drop_last();
    let two = three.drop_last();
    let one = two.drop_last();
    assert(rejoined(one, separator) == parts[0]);
    assert(rejoined(two, separator) == parts[0].push(separator) + parts[1]);
    assert(rejoined(three, separator) == rejoined(two, separator).push(separator) + parts[2]);
    assert(rejoined(parts, separator) =~= parts[0] + seq![separator] + parts[1] + seq![separator]
        + parts[2] + seq![separator] + parts[3]);
}

proof fn lemma_octets_apart(a: nat, b: nat, c: nat, d: nat)
    requires
        a < 256,
        b < 256,
        c < 256,
        d < 256,
    ensures
        ({
            let value = octets_value(a as u8, b as u8, c as u8, d as u8);
            &&& 0 <= value <= 0xffff_ffff
            &&& value / 0x100_0000 == a
            &&& value / 0x1_0000 % 256 == b
            &&& value / 256 % 256 == c
            &&& value % 256 == d
        }),
{
}

proof fn lemma_ipv4_text_of(text: Seq<char>, value: u32)
    requires
        ipv4_of(text) == Some(IpAddr::V4(value)),
    ensures
        text == ipv4_text(value as nat),
{
    let parts = split(text, '.');
    let (a, b, c, d) = (number(parts[0]), number(parts[1]), number(parts[2]), number(parts[3]));
    lemma_octets_apart(a, b, c, d);
    assert(text == decimal(a) + seq!['.'] + decimal(b) + seq!['.'] + decimal(c) + seq!['.']
        + decimal(d)) by {
        law_pieces_make_up_the_text(text, '.');
        lemma_four_parts(parts, '.');
        lemma_plain_number_is_decimal(parts[0]);
        lemma_plain_number_is_decimal(parts[1]);
        lemma_plain_number_is_decimal(parts[2]);
        lemma_plain_number_is_decimal(parts[3]);
    }
}

/// An IPv4 address has one text: what is read as an address is the text of that
/// address.
pub proof fn law_ipv4_addresses_have_one_text(text: Seq<char>, value: u32)
    ensures
        ipv4_of(text) == Some(IpAddr::V4(value)) <==> text == ipv4_text(value as nat),
        ipv4_of(text) matches Some(ip) ==> ip is V4,
{
    law_ipv4_text_round_trip(value);
    if ipv4_of(text) == Some(IpAddr::V4(value)) {
        lemma_ipv4_text_of(text, value);
    }
}

/// A socket text is the text of an address, one colon and a port of digits.
pub proof fn law_socket_texts_have_one_colon(text: Seq<char>, socket: SocketAddr)
    requires
        socket_of(text) == Some(socket),
    ensures
        socket.flowinfo == 0 && socket.scope_id == 0,
        exists|host: Seq<char>, digits: Seq<char>| #[trigger]
            (host.push(':') + digits) == text && ipv4_of(host) == Some(socket.ip) && is_number(
                digits,
            ) && number(digits) == socket.port,
{
    let parts = split(text, ':');
    law_pieces_make_up_the_text(text, ':');
    assert(rejoined(parts.drop_last(), ':') == parts[0]);
    assert(parts[0].push(':') + parts[1] == text);
}

/// A port is written in decimal digits, where leading zeros and, in a list of
/// segments, a plus sign before them change nothing; nothing above 65535 is one.
pub proof fn law_ports_are_numbers(text: Seq<char>, port: u16)
    requires
        is_number(text),
    ensures
        number(text) == port <==> port_of(text) == Some(port),
        number(text) > 65535 ==> port_of(text) is None,
        signed_port_of(seq!['+'] + text) == port_of(text),
        signed_port_of(text) == port_of(text),
        port_of(seq!['+'] + text) is None,
        port_of(Seq::empty()) is None,
{
    let signed = seq!['+'] + text;
    assert(signed.drop_first() =~= text);
    assert(signed[0] == '+');
    assert(!is_digit(signed[0]));
    assert(is_digit(text[0]));
}

proof fn lemma_four_segments(
    protocol: Seq<char>,
    host: Seq<char>,
    transport: Seq<char>,
    digits: Seq<char>,
)
    requires
        protocol.len() > 0,
        host.len() > 0,
        transport.len() > 0,
        digits.len() > 0,
    ensures
        nonempty(seq![Seq::<char>::empty(), protocol, host, transport, digits]) == seq![
            protocol,
            host,
            transport,
            digits,
        ],
{
    reveal(Seq::filter);
    let keep = |piece: Seq<char>| piece.len() > 0;
    let all = seq![Seq::<char>::empty(), protocol, host, transport, digits];
    let (a, b, c, d) = (
        all.drop_last(),
        all.drop_last().drop_last(),
        all.drop_last().drop_last().drop_last(),
        all.drop_last().drop_last().drop_last().drop_last(),
    );
    assert(d.drop_last() =~= Seq::<Seq<char>>::empty());
    assert(d.last() == Seq::<char>::empty());
    assert(Seq::<Seq<char>>::empty().filter(keep) =~= Seq::<Seq<char>>::empty());
    assert(d.filter(keep) =~= Seq::<Seq<char>>::empty());
    assert(c.last() == protocol);
    assert(c.filter(keep) =~= seq![protocol]);
    assert(b.last() == host);
    assert(b.filter(keep) =~= seq![protocol, host]);
    assert(a.last() == transport);
    assert(a.filter(keep) =~= seq![protocol, host, transport]);
    assert(all.last() == digits);
    assert(all.filter(keep) =~= seq![protocol, host, transport, digits]);
}

/// In the form of segments the host stands behind the IP protocol and the port
/// behind the transport protocol, which is one of three.
pub proof fn law_segments_name_host_and_port(
    version: Seq<char>,
    host: Seq<char>,
    transport: Seq<char>,
    digits: Seq<char>,
    port: u16,
)
    requires
        version == "ip4"@ || version == "ip6"@,
        host.len() > 0,
        !host.contains('/'),
        transport.len() > 0,
        !transport.contains('/'),
        is_number(digits),
        number(digits) == port,
    ensures
        ({
            let text = ((((Seq::empty().push('/') + version).push('/') + host).push('/')
                + transport).push('/') + digits);
            &&& (transport == "tcp"@ || transport == "udp"@ || transport == "quic"@)
                ==> segments_of(text) == Some((host, port))
            &&& !(transport == "tcp"@ || transport == "udp"@ || transport == "quic"@)
                ==> segments_of(text) is None
        }),
{
    reveal_strlit("ip4");
    reveal_strlit("ip6");
    reveal_strlit("/ip4/");
    reveal_strlit("/ip6/");
    let none = Seq::<char>::empty();
    let one = none.push('/') + version;
    let two = one.push('/') + host;
    let three = two.push('/') + transport;
    let four = three.push('/') + digits;
    assert forall|i: int| 0 <= i < host.len() implies host[i] != '/' by {
        assert(host.contains(host[i]));
    }
    assert forall|i: int| 0 <= i < transport.len() implies transport[i] != '/' by {
        assert(transport.contains(transport[i]));
    }
    assert forall|i: int| 0 <= i < digits.len() implies digits[i] != '/' by {
        assert(is_digit(digits[i]));
    }
    lemma_split_whole(none, '/');
    lemma_split_tail(none, version, '/');
    lemma_split_tail(one, host, '/');
    lemma_split_tail(two, transport, '/');
    lemma_split_tail(three, digits, '/');
    assert(split(four, '/') =~= seq![none, version, host, transport, digits]);
    lemma_four_segments(version, host, transport, digits);
    assert(four.take(5) =~= "/ip4/"@ || four.take(5) =~= "/ip6/"@);
    assert(is_digit(digits[0]));
}

/// An address in segments is read like one with a colon.
pub proof fn law_both_forms_are_read(text: Seq<char>, host: Seq<char>, port: u16)
    ensures
        socket_of(text) is Some ==> ipv4_address_of(text) == socket_of(text),
        socket_of(text) is None && segments_of(text) == Some((host, port)) ==> (ipv4_of(host)
            matches Some(ip) ==> ipv4_address_of(text) == Some(
            (SocketAddr { ip, port, flowinfo: 0, scope_id: 0 }),
        )),
        socket_of(text) is None && segments_of(text) is None ==> ipv4_address_of(text) is None,
        socket_of(text) is None && segments_of(text) == Some((host, port)) && ipv4_of(host) is None
            ==> ipv4_address_of(text) is None,
{
}

} // verus!
