//! What one side of the protocol reads from what the other side writes.

use vstd::prelude::*;
use crate::text::{decimal, joined_by, no_ws, free_of, is_ws, is_digit, split_on, trim, words, lemma_words_joined, lemma_split_joined, lemma_trim_plain, lemma_parse_decimal_u32, lemma_decimal_plain, parse_u16_spec};
use crate::server::requests::{ClientMessage, parse_client_message};
use crate::peer::messages::{service_text, unhandled_text, notice_text, image_request_text, fields, session_port_spec};
use crate::server::node::offer_text;

verus! {

/// A server reads a client's request `me kind text` back as that request,
/// when the kind and text are single words and the kind is not `unhandled`.
pub proof fn lemma_server_reads_request(me: u32, kind: Seq<char>, text: Seq<char>)
    requires
        kind.len() > 0,
        text.len() > 0,
        no_ws(kind),
        no_ws(text),
        kind != "unhandled"@,
    ensures
        parse_client_message(service_text(me, kind, text)) == Some(ClientMessage::Queued { id: me, kind, text }),
{
    let parts = seq![decimal(me as nat), kind, text];
    lemma_decimal_plain(me as nat);
    assert(joined_by(parts, ' ') =~= service_text(me, kind, text)) by {
        let p1 = seq![decimal(me as nat)];
        let p2 = seq![decimal(me as nat), kind];
        assert(parts.drop_last() =~= p2);
        assert(p2.drop_last() =~= p1);
        assert(joined_by(p1, ' ') == decimal(me as nat));
        assert(joined_by(p2, ' ') == decimal(me as nat) + seq![' '] + kind);
        assert(joined_by(parts, ' ') == joined_by(p2, ' ') + seq![' '] + text);
    }
    lemma_words_joined(parts);
    lemma_parse_decimal_u32(me as nat);
}

/// A server reads `me unhandled client image rights` back as an access-right
/// change owned by client `me`, when the three fields are single words.
pub proof fn lemma_server_reads_unhandled(me: u32, client: Seq<char>, image: Seq<char>, rights: Seq<char>)
    requires
        client.len() > 0,
        image.len() > 0,
        rights.len() > 0,
        no_ws(client),
        no_ws(image),
        no_ws(rights),
    ensures
        parse_client_message(unhandled_text(me, client, image, rights))
            == Some(ClientMessage::Unhandled { id: me, requester: client, image, rights }),
{
    reveal_strlit("unhandled");
    let u = "unhandled"@;
    let parts = seq![decimal(me as nat), u, client, image, rights];
    lemma_decimal_plain(me as nat);
    assert(no_ws(u));
    assert(joined_by(parts, ' ') =~= unhandled_text(me, client, image, rights)) by {
        let p4 = parts.drop_last();
        let p3 = p4.drop_last();
        let p2 = p3.drop_last();
        let p1 = p2.drop_last();
        assert(p1 =~= seq![decimal(me as nat)]);
        assert(p2 =~= seq![decimal(me as nat), u]);
        assert(p3 =~= seq![decimal(me as nat), u, client]);
        assert(p4 =~= seq![decimal(me as nat), u, client, image]);
        assert(joined_by(p1, ' ') == decimal(me as nat));
        assert(joined_by(p2, ' ') == joined_by(p1, ' ') + seq![' '] + u);
        assert(joined_by(p3, ' ') == joined_by(p2, ' ') + seq![' '] + client);
        assert(joined_by(p4, ' ') == joined_by(p3, ' ') + seq![' '] + image);
        assert(joined_by(parts, ' ') == joined_by(p4, ' ') + seq![' '] + rights);
    }
    lemma_words_joined(parts);
    lemma_parse_decimal_u32(me as nat);
}

/// A client reads an owner's `me:image:rights` back as its three fields, so
/// the rights are set on `image` from `Client<me>`.
pub proof fn lemma_client_reads_notice(me: u32, image: Seq<char>, rights: Seq<char>)
    requires
        free_of(image, ':'),
        free_of(rights, ':'),
        rights.len() > 0,
        !is_ws(rights.last()),
    ensures
        fields(notice_text(me, image, rights), ':') == seq![decimal(me as nat), image, rights],
{
    let parts = seq![decimal(me as nat), image, rights];
    let t = notice_text(me, image, rights);
    lemma_decimal_plain(me as nat);
    assert(!is_digit(':'));
    assert(joined_by(parts, ':') =~= t) by {
        let p1 = seq![decimal(me as nat)];
        let p2 = seq![decimal(me as nat), image];
        assert(parts.drop_last() =~= p2);
        assert(p2.drop_last() =~= p1);
        assert(joined_by(p1, ':') == decimal(me as nat));
        assert(joined_by(p2, ':') == decimal(me as nat) + seq![':'] + image);
        assert(joined_by(parts, ':') == joined_by(p2, ':') + seq![':'] + rights);
    }
    assert(t[0] == decimal(me as nat)[0]);
    crate::text::lemma_decimal(me as nat);
    assert(is_digit(decimal(me as nat)[0]));
    assert(t.last() == rights.last());
    lemma_trim_plain(t);
    lemma_split_joined(parts, ':');
}

/// An owner reads a client's `port me image` back as its three fields, the
/// first of them the port.
pub proof fn lemma_owner_reads_image_request(port: u16, me: u32, image: Seq<char>)
    requires
        image.len() > 0,
        free_of(image, ' '),
        !is_ws(image.last()),
    ensures
        fields(image_request_text(port, me, image), ' ') == seq![decimal(port as nat), decimal(me as nat), image],
        parse_u16_spec(decimal(port as nat)) == Some(port),
{
    let parts = seq![decimal(port as nat), decimal(me as nat), image];
    let t = image_request_text(port, me, image);
    lemma_decimal_plain(port as nat);
    lemma_decimal_plain(me as nat);
    assert(!is_digit(' '));
    assert(joined_by(parts, ' ') =~= t) by {
        let p1 = seq![decimal(port as nat)];
        let p2 = seq![decimal(port as nat), decimal(me as nat)];
        assert(parts.drop_last() =~= p2);
        assert(p2.drop_last() =~= p1);
        assert(joined_by(p1, ' ') == decimal(port as nat));
        assert(joined_by(p2, ' ') == decimal(port as nat) + seq![' '] + decimal(me as nat));
        assert(joined_by(parts, ' ') == joined_by(p2, ' ') + seq![' '] + image);
    }
    crate::text::lemma_decimal(port as nat);
    assert(t[0] == decimal(port as nat)[0]);
    assert(is_digit(decimal(port as nat)[0]));
    assert(t.last() == image.last());
    lemma_trim_plain(t);
    lemma_split_joined(parts, ' ');
    lemma_parse_decimal_u32(port as nat);
}


/// A client reads the port back from a server's `port server2` offer.
pub proof fn lemma_client_reads_offer(port: u16)
    ensures
        session_port_spec(offer_text(port)) == Some(port),
{
    reveal_strlit("server2");
    let name = "server2"@;
    let parts = seq![decimal(port as nat), name];
    let t = offer_text(port);
    lemma_decimal_plain(port as nat);
    assert(no_ws(name));
    assert(free_of(name, ' ')) by {
        assert forall|i: int| 0 <= i < name.len() implies name[i] != ' ' by {
            assert(!is_ws(name[i]));
        }
    }
    assert(!is_digit(' '));
    assert(!is_digit(':'));
    assert(joined_by(parts, ' ') =~= t) by {
        assert(parts.drop_last() =~= seq![decimal(port as nat)]);
        assert(joined_by(seq![decimal(port as nat)], ' ') == decimal(port as nat));
    }
    crate::text::lemma_decimal(port as nat);
    assert(t[0] == decimal(port as nat)[0]);
    assert(is_digit(decimal(port as nat)[0]));
    assert(t.last() == name.last());
    lemma_trim_plain(t);
    lemma_split_joined(parts, ' ');
    crate::text::lemma_split_on_free_pub(decimal(port as nat), ':');
    lemma_parse_decimal_u32(port as nat);
}

} // verus!
