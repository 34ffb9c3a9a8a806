//! The messages a client builds, and what it does with those it receives
//! from servers and other clients.

use vstd::prelude::*;
use crate::text::{chars_of, string_of, split_chars, trim_chars, split_on, trim, parse_u16, parse_u16_spec, parse_i32, parse_i32_spec, decimal, push_decimal, push_char, append_str, text_is};
use crate::peer::cache::{ClientCache, CachedView, named};
use crate::peer::access::{RequestingClient, RequestedImage, GrantView, HeldView, grant_views, held_views, rehold, set_held_rights};
use crate::search::find_first;

verus! {

/// `Client` followed by the given text (the name under which a client whose
/// number is that text is known).
pub open spec fn client_text(id: Seq<char>) -> Seq<char> {
    seq!['C', 'l', 'i', 'e', 'n', 't'] + id
}

fn client_string(id: &Vec<char>) -> (r: String)
    ensures
        r@ == client_text(id@),
{
    let mut r = String::new();
    append_str(&mut r, "Client");
    proof {
        reveal_strlit("Client");
    }
    crate::text::append_chars(&mut r, id.as_slice());
    assert(r@ =~= client_text(id@));
    r
}

/// What a client does once it knows where the client it asked about is.
pub enum FollowUp {
    /// Ask that client for an image.
    Request,
    /// Ask that client for its samples.
    Samples,
    /// An unknown command: nothing.
    Invalid,
}

/// The follow-up for a lookup made for `command`.
pub fn lookup_follow_up(command: &String) -> (r: FollowUp)
    ensures
        r == (if command@ == "request"@ {
            FollowUp::Request
        } else if command@ == "samples"@ {
            FollowUp::Samples
        } else {
            FollowUp::Invalid
        }),
{
    if text_is(command, "request") {
        FollowUp::Request
    } else if text_is(command, "samples") {
        FollowUp::Samples
    } else {
        FollowUp::Invalid
    }
}

/// An owner's answer to a request for more views: where the owner typed
/// `y` (around whitespace), the views asked for, and the grant is made;
/// otherwise `-1`, and nothing is granted.
pub open spec fn grant_reply(answer: Seq<char>, rights: Seq<char>) -> (Seq<char>, bool) {
    if trim(answer) == "y"@ {
        (rights, true)
    } else {
        ("-1"@, false)
    }
}

/// The reply to send for the owner's typed `answer` to a request for
/// `rights` views, and whether the grant is made.
pub fn grant_answer(answer: &str, rights: &String) -> (r: (String, bool))
    ensures
        (r.0@, r.1) == grant_reply(answer@, rights@),
{
    let t = trim_chars(chars_of(answer).as_slice());
    let y = chars_of("y");
    if crate::text::chars_equal(t.as_slice(), y.as_slice()) {
        (string_of(chars_of(rights.as_str()).as_slice()), true)
    } else {
        let mut r = String::new();
        append_str(&mut r, "-1");
        (r, false)
    }
}

/// The fields of a trimmed line separated by `d`.
pub open spec fn fields(msg: Seq<char>, d: char) -> Seq<Seq<char>> {
    split_on(trim(msg), d)
}

fn fields_of(msg: &str, d: char) -> (r: Vec<Vec<char>>)
    ensures
        r@.len() == fields(msg@, d).len(),
        r@.len() >= 1,
        forall|i: int| 0 <= i < r@.len() ==> #[trigger] r@[i]@ == fields(msg@, d)[i],
{
    let cs = chars_of(msg);
    let t = trim_chars(cs.as_slice());
    proof {
        crate::text::lemma_split_on_nonempty(t@, d);
    }
    split_chars(t.as_slice(), d)
}

/// What an owner answers to `port id image` from another client: the port
/// to send to, which of the three encrypted images to send (`1`, `2`, `3`
/// name the first, second and third; anything else the first) and the first
/// line, which grants five views.
pub struct ImageOffer {
    pub port: u16,
    pub file_index: usize,
    pub first_message: String,
}

/// The file index for an image id.
pub open spec fn image_file_index(image: Seq<char>) -> nat {
    if image == "2"@ { 1 } else if image == "3"@ { 2 } else { 0 }
}

/// An owner answers a request for image `k` (from 1 to the number of
/// encryption rounds) with the file written by encryption round `k - 1`,
/// the one that encrypted `image<k>.jpg`; so distinct image ids get
/// distinct files.
pub proof fn lemma_image_file_index(k: nat)
    requires
        1 <= k <= crate::peer::files::ENCRYPT_ROUNDS,
    ensures
        image_file_index(decimal(k)) == k - 1,
        crate::peer::files::encrypt_source_text((k - 1) as u32) == "image"@ + decimal(k) + ".jpg"@,
{
    reveal_strlit("1");
    reveal_strlit("2");
    reveal_strlit("3");
    reveal_strlit("image");
    reveal_strlit(".jpg");
    reveal_strlit("image1.jpg");
    reveal_strlit("image2.jpg");
    reveal_strlit("image3.jpg");
    assert(decimal(k) == seq![crate::text::digit_char(k)]);
    if k == 1 {
        assert(decimal(k) =~= "1"@);
        assert(decimal(k) != "2"@) by { assert(decimal(k)[0] != "2"@[0]); }
        assert(decimal(k) != "3"@) by { assert(decimal(k)[0] != "3"@[0]); }
        assert("image"@ + decimal(k) + ".jpg"@ =~= "image1.jpg"@);
    } else if k == 2 {
        assert(decimal(k) =~= "2"@);
        assert("image"@ + decimal(k) + ".jpg"@ =~= "image2.jpg"@);
    } else {
        assert(decimal(k) =~= "3"@);
        assert(decimal(k) != "2"@) by { assert(decimal(k)[0] != "2"@[0]); }
        assert("image"@ + decimal(k) + ".jpg"@ =~= "image3.jpg"@);
    }
}

/// An owner receives `port id image`: with three or more fields it records
/// a grant of `5` views on `image` to `Client<id>` and caches that client
/// at `sender` unless already cached; then it reads the port. `None` for a
/// malformed request (too few fields, before any change; a port that is
/// not a `u16`, after the changes).
pub fn on_image_request(grants: &mut Vec<RequestingClient>, cache: &mut ClientCache, msg: &str, sender: String, me: u32) -> (r: Option<ImageOffer>)
    ensures
        ({
            let f = fields(msg@, ' ');
            if f.len() < 3 {
                r is None && final(grants)@ == old(grants)@ && final(cache)@ == old(cache)@
            } else {
                let name = client_text(f[1]);
                &&& grant_views(final(grants)@) == grant_views(old(grants)@).push(GrantView { image: f[2], client: name, rights: "5"@ })
                &&& final(cache)@ == (if find_first(old(cache)@, named(name)) is None {
                    old(cache)@.push(CachedView { name, ip: sender@ })
                } else {
                    old(cache)@
                })
                &&& match parse_u16_spec(f[0]) {
                    None => r is None,
                    Some(port) => r matches Some(o) && o.port == port && o.file_index == image_file_index(f[2])
                        && o.first_message@ == "first_message:"@ + client_text(decimal(me as nat)) + seq![':'] + f[2] + ":5"@,
                }
            }
        }),
{
    let f = fields_of(msg, ' ');
    if f.len() < 3 {
        return None;
    }
    let name = client_string(&f[1]);
    let image = string_of(f[2].as_slice());
    let mut five = String::new();
    append_str(&mut five, "5");
    let g = RequestingClient { image_id: image.clone(), requesting_client_name: name.clone(), access_rights: five };
    let ghost before = grant_views(grants@);
    grants.push(g);
    assert(grant_views(grants@) =~= before.push(g@));
    cache.learn(name, sender);
    match parse_u16(f[0].as_slice()) {
        None => None,
        Some(port) => {
            let file_index: usize = if text_is(&image, "2") { 1 } else if text_is(&image, "3") { 2 } else { 0 };
            let mut first = String::new();
            append_str(&mut first, "first_message:Client");
            push_decimal(&mut first, me as u64);
            push_char(&mut first, ':');
            append_str(&mut first, image.as_str());
            append_str(&mut first, ":5");
            proof {
                reveal_strlit("first_message:Client");
                reveal_strlit("first_message:");
                reveal_strlit("Client");
            }
            assert(first@ =~= "first_message:"@ + client_text(decimal(me as nat)) + seq![':'] + f@[2]@ + ":5"@);
            Some(ImageOffer { port, file_index, first_message: first })
        },
    }
}

/// A client receives `name samples ... port` from another client: the
/// port to send the samples to and the requester `Client<name>`, after
/// caching it at `sender` unless already cached. `None` for a malformed
/// request (fewer than four fields or a port that is not a `u16`), with
/// nothing changed.
pub fn on_samples_request(cache: &mut ClientCache, msg: &str, sender: String) -> (r: Option<(u16, String)>)
    ensures
        ({
            let f = fields(msg@, ' ');
            if f.len() < 4 || parse_u16_spec(f[3]) is None {
                r is None && final(cache)@ == old(cache)@
            } else {
                let name = client_text(f[0]);
                &&& r matches Some((port, who)) && Some(port) == parse_u16_spec(f[3]) && who@ == name
                &&& final(cache)@ == (if find_first(old(cache)@, named(name)) is None {
                    old(cache)@.push(CachedView { name, ip: sender@ })
                } else {
                    old(cache)@
                })
            }
        }),
{
    let f = fields_of(msg, ' ');
    if f.len() < 4 {
        return None;
    }
    let port = match parse_u16(f[3].as_slice()) {
        Some(p) => p,
        None => return None,
    };
    let name = client_string(&f[0]);
    cache.learn(name.clone(), sender);
    Some((port, name))
}

/// A client receives `id:image:rights` from an owner: every held image
/// `image` from `Client<id>` gets `rights`. `false` for a malformed
/// notice (fewer than three fields), with nothing changed.
pub fn on_rights_notice(held: &mut Vec<RequestedImage>, msg: &str) -> (ok: bool)
    ensures
        ({
            let f = fields(msg@, ':');
            if f.len() < 3 {
                !ok && final(held)@ == old(held)@
            } else {
                ok && held_views(final(held)@) == rehold(held_views(old(held)@), f[1], client_text(f[0]), f[2])
            }
        }),
{
    let f = fields_of(msg, ':');
    if f.len() < 3 {
        return false;
    }
    let owner = client_string(&f[0]);
    let image = string_of(f[1].as_slice());
    let rights = string_of(f[2].as_slice());
    set_held_rights(held, &image, &owner, &rights);
    true
}

/// During an image transfer, a four-field line `x:owner:image:rights` sets
/// the views left on that held image; other lines are chunk lines.
pub open spec fn rights_line(msg: Seq<char>) -> Option<(Seq<char>, Seq<char>, Seq<char>)> {
    let f = fields(msg, ':');
    if f.len() == 4 { Some((f[1], f[2], f[3])) } else { None }
}

/// Applies a four-field line received during an image transfer; `false`
/// (with nothing changed) for any other line.
pub fn on_transfer_rights_line(held: &mut Vec<RequestedImage>, msg: &str) -> (applied: bool)
    ensures
        match rights_line(msg@) {
            Some((owner, image, rights)) => applied && held_views(final(held)@) == rehold(held_views(old(held)@), image, owner, rights),
            None => !applied && final(held)@ == old(held)@,
        },
{
    let f = fields_of(msg, ':');
    if f.len() != 4 {
        return false;
    }
    let owner = string_of(f[1].as_slice());
    let image = string_of(f[2].as_slice());
    let rights = string_of(f[3].as_slice());
    set_held_rights(held, &image, &owner, &rights);
    true
}

/// An owner's answer to a request for more views: a negative number
/// refuses; otherwise every held image `image` from `owner` gets the
/// `asked` rights. `None` for an answer that is not an `i32`, with nothing
/// changed; otherwise whether it was granted.
pub fn on_grant_reply(held: &mut Vec<RequestedImage>, reply: &str, image: &String, owner: &String, asked: &String) -> (r: Option<bool>)
    ensures
        match parse_i32_spec(trim(reply@)) {
            None => r is None && final(held)@ == old(held)@,
            Some(v) => if v < 0 {
                r == Some(false) && final(held)@ == old(held)@
            } else {
                r == Some(true) && held_views(final(held)@) == rehold(held_views(old(held)@), image@, owner@, asked@)
            },
        },
{
    let cs = chars_of(reply);
    let t = trim_chars(cs.as_slice());
    match parse_i32(t.as_slice()) {
        None => None,
        Some(v) => {
            if v < 0 {
                Some(false)
            } else {
                set_held_rights(held, image, owner, asked);
                Some(true)
            }
        },
    }
}

/// A request for more views: `id image rights port`.
pub struct RightsRequest {
    pub client: String,
    pub image: String,
    pub rights: String,
    pub port: u16,
}

/// Reads `id image rights port` from another client (the client is
/// `Client<id>`); `None` for a malformed request (fewer than four fields
/// or a port that is not a `u16`).
pub fn read_rights_request(msg: &str) -> (r: Option<RightsRequest>)
    ensures
        ({
            let f = fields(msg@, ' ');
            if f.len() < 4 || parse_u16_spec(f[3]) is None {
                r is None
            } else {
                r matches Some(q) && q.client@ == client_text(f[0]) && q.image@ == f[1] && q.rights@ == f[2]
                    && parse_u16_spec(f[3]) == Some(q.port)
            }
        }),
{
    let f = fields_of(msg, ' ');
    if f.len() < 4 {
        return None;
    }
    let port = match parse_u16(f[3].as_slice()) {
        Some(p) => p,
        None => return None,
    };
    Some(RightsRequest {
        client: client_string(&f[0]),
        image: string_of(f[1].as_slice()),
        rights: string_of(f[2].as_slice()),
        port,
    })
}

/// The port a server offers for an image transfer, from its reply
/// `port name`: the first space field, up to any `:`; `None` where that
/// is not a `u16`.
pub open spec fn session_port_spec(reply: Seq<char>) -> Option<u16> {
    parse_u16_spec(split_on(fields(reply, ' ')[0], ':')[0])
}

/// Reads the port from a server's `port name` reply.
pub fn session_port(reply: &str) -> (r: Option<u16>)
    ensures
        r == session_port_spec(reply@),
{
    let f = fields_of(msg_first(reply), ' ');
    let p = split_chars(f[0].as_slice(), ':');
    proof {
        crate::text::lemma_split_on_nonempty(f@[0]@, ':');
    }
    parse_u16(p[0].as_slice())
}

fn msg_first(s: &str) -> (r: &str)
    ensures
        r@ == s@,
{
    s
}

/// A server's answer to a directory lookup of `name`: `none`, or the
/// client's address, which the client caches under `name`. Says whether the
/// client was found.
pub fn on_lookup_reply(cache: &mut ClientCache, name: String, reply: String) -> (found: bool)
    ensures
        found == (reply@ != "none"@),
        final(cache)@ == (if found { old(cache)@.push(CachedView { name: name@, ip: reply@ }) } else { old(cache)@ }),
{
    if text_is(&reply, "none") {
        false
    } else {
        cache.add_client(name, reply);
        true
    }
}


/// `me kind text`: a request to the servers (`2 encrypt 2`, `2 online 2`,
/// `2 request Client1`).
pub open spec fn service_text(me: u32, kind: Seq<char>, text: Seq<char>) -> Seq<char> {
    decimal(me as nat) + seq![' '] + kind + seq![' '] + text
}

/// Builds `me kind text`.
pub fn service_request(me: u32, kind: &str, text: &String) -> (r: String)
    ensures
        r@ == service_text(me, kind@, text@),
{
    let mut r = String::new();
    push_decimal(&mut r, me as u64);
    push_char(&mut r, ' ');
    append_str(&mut r, kind);
    push_char(&mut r, ' ');
    append_str(&mut r, text.as_str());
    assert(r@ =~= service_text(me, kind@, text@));
    r
}

/// `me unhandled client image rights`: an access-right change the owner
/// could not deliver, left with the servers.
pub open spec fn unhandled_text(me: u32, client: Seq<char>, image: Seq<char>, rights: Seq<char>) -> Seq<char> {
    decimal(me as nat) + seq![' '] + "unhandled"@ + seq![' '] + client + seq![' '] + image + seq![' '] + rights
}

/// Builds `me unhandled client image rights`.
pub fn unhandled_request(me: u32, client: &String, image: &String, rights: &String) -> (r: String)
    ensures
        r@ == unhandled_text(me, client@, image@, rights@),
{
    let mut r = String::new();
    push_decimal(&mut r, me as u64);
    push_char(&mut r, ' ');
    append_str(&mut r, "unhandled");
    push_char(&mut r, ' ');
    append_str(&mut r, client.as_str());
    push_char(&mut r, ' ');
    append_str(&mut r, image.as_str());
    push_char(&mut r, ' ');
    append_str(&mut r, rights.as_str());
    assert(r@ =~= unhandled_text(me, client@, image@, rights@));
    r
}

/// `me:image:rights`: an owner tells a client its views of an image.
pub open spec fn notice_text(me: u32, image: Seq<char>, rights: Seq<char>) -> Seq<char> {
    decimal(me as nat) + seq![':'] + image + seq![':'] + rights
}

/// Builds `me:image:rights`.
pub fn rights_notice(me: u32, image: &String, rights: &String) -> (r: String)
    ensures
        r@ == notice_text(me, image@, rights@),
{
    let mut r = String::new();
    push_decimal(&mut r, me as u64);
    push_char(&mut r, ':');
    append_str(&mut r, image.as_str());
    push_char(&mut r, ':');
    append_str(&mut r, rights.as_str());
    assert(r@ =~= notice_text(me, image@, rights@));
    r
}

/// `port me image`: a client asks an owner for an image, to be sent to
/// `port`.
pub open spec fn image_request_text(port: u16, me: u32, image: Seq<char>) -> Seq<char> {
    decimal(port as nat) + seq![' '] + decimal(me as nat) + seq![' '] + image
}

/// Builds `port me image`.
pub fn image_request(port: u16, me: u32, image: &String) -> (r: String)
    ensures
        r@ == image_request_text(port, me, image@),
{
    let mut r = String::new();
    push_decimal(&mut r, port as u64);
    push_char(&mut r, ' ');
    push_decimal(&mut r, me as u64);
    push_char(&mut r, ' ');
    append_str(&mut r, image.as_str());
    assert(r@ =~= image_request_text(port, me, image@));
    r
}

/// `me samples me port`: a client asks another for its samples.
pub open spec fn samples_text(me: u32, port: u16) -> Seq<char> {
    decimal(me as nat) + seq![' '] + "samples"@ + seq![' '] + decimal(me as nat) + seq![' '] + decimal(port as nat)
}

/// Builds `me samples me port`.
pub fn samples_request(me: u32, port: u16) -> (r: String)
    ensures
        r@ == samples_text(me, port),
{
    let mut r = String::new();
    push_decimal(&mut r, me as u64);
    push_char(&mut r, ' ');
    append_str(&mut r, "samples");
    push_char(&mut r, ' ');
    push_decimal(&mut r, me as u64);
    push_char(&mut r, ' ');
    push_decimal(&mut r, port as u64);
    assert(r@ =~= samples_text(me, port));
    r
}

/// `me image rights port`: a client asks an owner for more views.
pub open spec fn more_rights_text(me: u32, image: Seq<char>, rights: Seq<char>, port: u16) -> Seq<char> {
    decimal(me as nat) + seq![' '] + image + seq![' '] + rights + seq![' '] + decimal(port as nat)
}

/// Builds `me image rights port`.
pub fn more_rights_request(me: u32, image: &String, rights: &String, port: u16) -> (r: String)
    ensures
        r@ == more_rights_text(me, image@, rights@, port),
{
    let mut r = String::new();
    push_decimal(&mut r, me as u64);
    push_char(&mut r, ' ');
    append_str(&mut r, image.as_str());
    push_char(&mut r, ' ');
    append_str(&mut r, rights.as_str());
    push_char(&mut r, ' ');
    push_decimal(&mut r, port as u64);
    assert(r@ =~= more_rights_text(me, image@, rights@, port));
    r
}

} // verus!
