//! Access rights on images. An owner keeps, per client and image, the
//! number of views it grants (`RequestingClient`); a client keeps, per owner
//! and image, the image it received and the views it has left
//! (`RequestedImage`). Counts are decimal texts, as they travel.

use vstd::prelude::*;
use crate::text::{chars_of, parse_i32, parse_i32_spec, signed_decimal, decimal, push_signed_decimal, text_is, lemma_decimal};

verus! {

/// What an owner grants a client on an image.
pub struct RequestingClient {
    pub image_id: String,
    pub requesting_client_name: String,
    pub access_rights: String,
}

/// A grant as a value.
pub struct GrantView {
    pub image: Seq<char>,
    pub client: Seq<char>,
    pub rights: Seq<char>,
}

impl RequestingClient {
    pub open spec fn view(&self) -> GrantView {
        GrantView { image: self.image_id@, client: self.requesting_client_name@, rights: self.access_rights@ }
    }
}

/// An image a client asked for: who owns it, the views left and the bytes
/// received so far.
pub struct RequestedImage {
    pub image_id: String,
    pub sender_client_name: String,
    pub access_rights: String,
    pub image_data: Vec<u8>,
}

/// A held image as a value.
pub struct HeldView {
    pub image: Seq<char>,
    pub owner: Seq<char>,
    pub rights: Seq<char>,
    pub data: Seq<u8>,
}

impl RequestedImage {
    pub open spec fn view(&self) -> HeldView {
        HeldView { image: self.image_id@, owner: self.sender_client_name@, rights: self.access_rights@, data: self.image_data@ }
    }
}

/// Records that an image was asked for: a held entry for the image and
/// its owner, with `0` views and no bytes yet, goes to the end of the list.
pub fn add_requested_image(list: &mut Vec<RequestedImage>, image_id: &String, owner: &String)
    ensures
        held_views(final(list)@) == held_views(old(list)@).push(
            HeldView { image: image_id@, owner: owner@, rights: "0"@, data: Seq::empty() },
        ),
{
    let mut rights = String::new();
    crate::text::append_str(&mut rights, "0");
    let entry = RequestedImage {
        image_id: image_id.clone(),
        sender_client_name: owner.clone(),
        access_rights: rights,
        image_data: Vec::new(),
    };
    let ghost before = held_views(list@);
    list.push(entry);
    assert(held_views(list@) =~= before.push(entry@));
}

pub open spec fn grant_views(v: Seq<RequestingClient>) -> Seq<GrantView> {
    v.map_values(|g: RequestingClient| g@)
}

pub open spec fn held_views(v: Seq<RequestedImage>) -> Seq<HeldView> {
    v.map_values(|h: RequestedImage| h@)
}

/// Every grant to `client` on `image` set to `rights`.
pub open spec fn regrant(list: Seq<GrantView>, client: Seq<char>, image: Seq<char>, rights: Seq<char>) -> Seq<GrantView> {
    Seq::new(list.len(), |i: int| if list[i].image == image && list[i].client == client {
        GrantView { image: list[i].image, client: list[i].client, rights }
    } else {
        list[i]
    })
}

/// Sets the rights of every grant to `client` on `image`.
pub fn set_grant_rights(list: &mut Vec<RequestingClient>, client: &String, image: &String, rights: &String)
    ensures
        grant_views(final(list)@) == regrant(grant_views(old(list)@), client@, image@, rights@),
{
    let ghost before = grant_views(list@);
    let n = list.len();
    for i in 0..n
        invariant
            n == list@.len(),
            before == grant_views(old(list)@),
            before.len() == n,
            forall|j: int| 0 <= j < i ==> #[trigger] grant_views(list@)[j] == regrant(before, client@, image@, rights@)[j],
            forall|j: int| i <= j < n ==> #[trigger] grant_views(list@)[j] == before[j],
    {
        assert(grant_views(list@)[i as int] == list@[i as int]@);
        if list[i].image_id == *image && list[i].requesting_client_name == *client {
            let g = RequestingClient {
                image_id: list[i].image_id.clone(),
                requesting_client_name: list[i].requesting_client_name.clone(),
                access_rights: rights.clone(),
            };
            let ghost cur = grant_views(list@);
            list.set(i, g);
            assert(grant_views(list@) =~= cur.update(i as int, g@));
        }
        assert(grant_views(list@)[i as int] == regrant(before, client@, image@, rights@)[i as int]);
    }
    assert(grant_views(list@) =~= regrant(before, client@, image@, rights@));
}

/// Every held image from `owner` with id `image` gets `rights`.
pub open spec fn rehold(list: Seq<HeldView>, image: Seq<char>, owner: Seq<char>, rights: Seq<char>) -> Seq<HeldView> {
    Seq::new(list.len(), |i: int| if list[i].image == image && list[i].owner == owner {
        HeldView { image: list[i].image, owner: list[i].owner, rights, data: list[i].data }
    } else {
        list[i]
    })
}

/// Every held image from `owner` with id `image` gets the bytes `data`.
pub open spec fn refill(list: Seq<HeldView>, image: Seq<char>, owner: Seq<char>, data: Seq<u8>) -> Seq<HeldView> {
    Seq::new(list.len(), |i: int| if list[i].image == image && list[i].owner == owner {
        HeldView { image: list[i].image, owner: list[i].owner, rights: list[i].rights, data }
    } else {
        list[i]
    })
}

fn copy_bytes(v: &Vec<u8>) -> (r: Vec<u8>)
    ensures
        r@ == v@,
{
    let mut r: Vec<u8> = Vec::new();
    let n = v.len();
    for i in 0..n
        invariant
            n == v@.len(),
            r@ == v@.take(i as int),
    {
        r.push(v[i]);
        assert(v@.take(i as int).push(v@[i as int]) =~= v@.take(i + 1));
    }
    assert(v@.take(n as int) =~= v@);
    r
}

/// Sets the views left on every held image from `owner` with id `image`.
pub fn set_held_rights(list: &mut Vec<RequestedImage>, image: &String, owner: &String, rights: &String)
    ensures
        held_views(final(list)@) == rehold(held_views(old(list)@), image@, owner@, rights@),
{
    let ghost before = held_views(list@);
    let n = list.len();
    for i in 0..n
        invariant
            n == list@.len(),
            before == held_views(old(list)@),
            before.len() == n,
            forall|j: int| 0 <= j < i ==> #[trigger] held_views(list@)[j] == rehold(before, image@, owner@, rights@)[j],
            forall|j: int| i <= j < n ==> #[trigger] held_views(list@)[j] == before[j],
    {
        assert(held_views(list@)[i as int] == list@[i as int]@);
        if list[i].image_id == *image && list[i].sender_client_name == *owner {
            let h = RequestedImage {
                image_id: list[i].image_id.clone(),
                sender_client_name: list[i].sender_client_name.clone(),
                access_rights: rights.clone(),
                image_data: copy_bytes(&list[i].image_data),
            };
            let ghost cur = held_views(list@);
            list.set(i, h);
            assert(held_views(list@) =~= cur.update(i as int, h@));
        }
        assert(held_views(list@)[i as int] == rehold(before, image@, owner@, rights@)[i as int]);
    }
    assert(held_views(list@) =~= rehold(before, image@, owner@, rights@));
}

/// Stores the received bytes in every held image from `owner` with id
/// `image`.
pub fn store_held_image(list: &mut Vec<RequestedImage>, image: &String, owner: &String, data: &Vec<u8>)
    ensures
        held_views(final(list)@) == refill(held_views(old(list)@), image@, owner@, data@),
{
    let ghost before = held_views(list@);
    let n = list.len();
    for i in 0..n
        invariant
            n == list@.len(),
            before == held_views(old(list)@),
            before.len() == n,
            forall|j: int| 0 <= j < i ==> #[trigger] held_views(list@)[j] == refill(before, image@, owner@, data@)[j],
            forall|j: int| i <= j < n ==> #[trigger] held_views(list@)[j] == before[j],
    {
        assert(held_views(list@)[i as int] == list@[i as int]@);
        if list[i].image_id == *image && list[i].sender_client_name == *owner {
            let h = RequestedImage {
                image_id: list[i].image_id.clone(),
                sender_client_name: list[i].sender_client_name.clone(),
                access_rights: list[i].access_rights.clone(),
                image_data: copy_bytes(data),
            };
            let ghost cur = held_views(list@);
            list.set(i, h);
            assert(held_views(list@) =~= cur.update(i as int, h@));
        }
        assert(held_views(list@)[i as int] == refill(before, image@, owner@, data@)[i as int]);
    }
    assert(held_views(list@) =~= refill(before, image@, owner@, data@));
}

/// Whether a held image is image `image` from `owner`.
pub open spec fn held_match(h: HeldView, image: Seq<char>, owner: Seq<char>) -> bool {
    h.image == image && h.owner == owner
}

/// What the `view` command finds.
#[derive(Debug)]
pub enum ViewDecision {
    /// No held image from that owner with that id.
    NotFound,
    /// Every such image has `0` views left; `refusals` of them.
    Denied { refusals: usize },
    /// An image with views left; `refusals` images with `0` came before it.
    Granted { refusals: usize },
}

/// The number of matching held images with `0` views left.
pub open spec fn zero_matches(list: Seq<HeldView>, image: Seq<char>, owner: Seq<char>) -> nat
    decreases list.len(),
{
    if list.len() == 0 {
        0
    } else {
        zero_matches(list.drop_last(), image, owner)
            + if held_match(list.last(), image, owner) && list.last().rights == "0"@ { 1nat } else { 0nat }
    }
}

/// The index of the first matching held image with views left, if any.
pub open spec fn first_granted(list: Seq<HeldView>, image: Seq<char>, owner: Seq<char>) -> Option<nat> {
    crate::search::find_first(list, grantable(image, owner))
}

/// Matches held images from `owner` with id `image` and views left.
pub open spec fn grantable(image: Seq<char>, owner: Seq<char>) -> spec_fn(HeldView) -> bool {
    |h: HeldView| held_match(h, image, owner) && h.rights != "0"@
}

/// What the `view` command decides: the first matching held image whose
/// count is not `0` is shown (after refusing the `0` ones before it); if
/// there is none, the matches are refused; without a match the image is not
/// found.
pub open spec fn view_decision_spec(list: Seq<HeldView>, image: Seq<char>, owner: Seq<char>) -> (bool, bool, nat) {
    match first_granted(list, image, owner) {
        Some(k) => (true, true, zero_matches(list.take(k as int), image, owner)),
        None => (exists|i: int| 0 <= i < list.len() && held_match(#[trigger] list[i], image, owner), false, zero_matches(list, image, owner)),
    }
}

impl ViewDecision {
    /// (found, granted, refusals)
    pub open spec fn view(&self) -> (bool, bool, nat) {
        match self {
            ViewDecision::NotFound => (false, false, 0),
            ViewDecision::Denied { refusals } => (true, false, *refusals as nat),
            ViewDecision::Granted { refusals } => (true, true, *refusals as nat),
        }
    }
}

/// Decides the `view` command for image `image` from `owner`.
pub fn view_decision(list: &Vec<RequestedImage>, image: &String, owner: &String) -> (r: ViewDecision)
    ensures
        r@ == view_decision_spec(held_views(list@), image@, owner@),
{
    let ghost hv = held_views(list@);
    let ghost p = grantable(image@, owner@);
    proof {
        crate::search::lemma_find_first(hv, p);
    }
    let n = list.len();
    let mut refusals: usize = 0;
    let mut found = false;
    for i in 0..n
        invariant
            n == list@.len(),
            hv == held_views(list@),
            p == grantable(image@, owner@),
            forall|j: int| 0 <= j < i ==> !p(#[trigger] hv[j]),
            refusals == zero_matches(hv.take(i as int), image@, owner@),
            refusals <= i,
            found == exists|j: int| 0 <= j < i && held_match(#[trigger] hv[j], image@, owner@),
            !found ==> refusals == 0,
    {
        assert(hv.take(i + 1).drop_last() =~= hv.take(i as int));
        assert(hv[i as int] == list@[i as int]@);
        if list[i].image_id == *image && list[i].sender_client_name == *owner {
            found = true;
            if text_is(&list[i].access_rights, "0") {
                refusals = refusals + 1;
            } else {
                proof {
                    crate::search::lemma_find_first_at(hv, p, i as int);
                }
                return ViewDecision::Granted { refusals };
            }
        }
    }
    proof {
        crate::search::lemma_find_first_none(hv, p);
        assert(hv.take(n as int) =~= hv);
    }
    if found {
        ViewDecision::Denied { refusals }
    } else {
        ViewDecision::NotFound
    }
}

/// Held image `i` after one view: its count, read as an `i32`, less one;
/// `None` for a count that is not an `i32`, or that is the least `i32`
/// (one less would overflow).
pub open spec fn spend_spec(list: Seq<HeldView>, i: int) -> Option<Seq<HeldView>> {
    match parse_i32_spec(list[i].rights) {
        Some(v) => if v > i32::MIN {
            Some(list.update(i, HeldView {
                image: list[i].image,
                owner: list[i].owner,
                rights: signed_decimal(v - 1),
                data: list[i].data,
            }))
        } else {
            None
        },
        None => None,
    }
}

/// Takes one view of held image `i` and hands back its bytes to show;
/// `None` where the count cannot be spent (see `spend_spec`), with the
/// list unchanged.
pub fn spend_view(list: &mut Vec<RequestedImage>, i: usize) -> (r: Option<Vec<u8>>)
    requires
        i < old(list)@.len(),
    ensures
        match spend_spec(held_views(old(list)@), i as int) {
            Some(l) => r matches Some(d) && d@ == old(list)@[i as int].image_data@ && held_views(final(list)@) == l,
            None => r is None && final(list)@ == old(list)@,
        },
{
    let cs = chars_of(list[i].access_rights.as_str());
    assert(held_views(list@)[i as int] == list@[i as int]@);
    match parse_i32(cs.as_slice()) {
        Some(v) => {
            if v == i32::MIN {
                return None;
            }
            let mut rights = String::new();
            push_signed_decimal(&mut rights, (v - 1) as i64);
            assert(rights@ =~= signed_decimal(v - 1));
            let data = copy_bytes(&list[i].image_data);
            let h = RequestedImage {
                image_id: list[i].image_id.clone(),
                sender_client_name: list[i].sender_client_name.clone(),
                access_rights: rights,
                image_data: copy_bytes(&list[i].image_data),
            };
            let ghost before = held_views(list@);
            list.set(i, h);
            assert(held_views(list@) =~= before.update(i as int, h@));
            Some(data)
        },
        None => None,
    }
}

/// The indices below `k` of the held images from `owner` with id `image`,
/// in order.
pub open spec fn matches_upto(list: Seq<HeldView>, image: Seq<char>, owner: Seq<char>, k: nat) -> Seq<usize>
    decreases k,
{
    if k == 0 {
        Seq::<usize>::empty()
    } else {
        let p = matches_upto(list, image, owner, (k - 1) as nat);
        if held_match(list[k - 1], image, owner) { p.push((k - 1) as usize) } else { p }
    }
}

/// The indices of the held images from `owner` with id `image`, in order.
pub fn matching_images(list: &Vec<RequestedImage>, image: &String, owner: &String) -> (r: Vec<usize>)
    ensures
        r@ == matches_upto(held_views(list@), image@, owner@, list@.len()),
{
    let mut r: Vec<usize> = Vec::new();
    let n = list.len();
    for i in 0..n
        invariant
            n == list@.len(),
            r@ == matches_upto(held_views(list@), image@, owner@, i as nat),
    {
        assert(held_views(list@)[i as int] == list@[i as int]@);
        if list[i].image_id == *image && list[i].sender_client_name == *owner {
            r.push(i);
        }
    }
    r
}

/// One view of an image held with `n` views left leaves `n - 1`.
pub proof fn lemma_view_spends_one(list: Seq<HeldView>, i: int, n: nat)
    requires
        0 <= i < list.len(),
        1 <= n <= i32::MAX,
        list[i].rights == decimal(n),
    ensures
        spend_spec(list, i) matches Some(l) && l[i].rights == decimal((n - 1) as nat)
            && l[i].image == list[i].image && l[i].owner == list[i].owner && l[i].data == list[i].data,
{
    lemma_decimal(n);
    assert(crate::text::is_digit(decimal(n)[0]));
    assert(parse_i32_spec(decimal(n)) == Some(n as i32));
}

/// An image whose views are spent is refused: when the only held image from
/// `owner` with id `image` has `0` views left, `view` refuses it.
pub proof fn lemma_spent_image_refused(list: Seq<HeldView>, i: int, image: Seq<char>, owner: Seq<char>)
    requires
        0 <= i < list.len(),
        held_match(list[i], image, owner),
        list[i].rights == decimal(0),
        forall|j: int| 0 <= j < list.len() && j != i ==> !held_match(#[trigger] list[j], image, owner),
    ensures
        view_decision_spec(list, image, owner).0,
        !view_decision_spec(list, image, owner).1,
{
    reveal_strlit("0");
    assert(decimal(0) =~= "0"@);
    let p = grantable(image, owner);
    assert forall|j: int| 0 <= j < list.len() implies !p(#[trigger] list[j]) by {
        if j != i {
            assert(!held_match(list[j], image, owner));
        }
    }
    crate::search::lemma_find_first_none(list, p);
}

/// Setting the held rights for `image` from `owner` changes only the held
/// images with that id from that owner, and of those only the rights: a
/// held image from another owner, or with another id, stays as it was.
pub proof fn lemma_rehold_only_matching(list: Seq<HeldView>, image: Seq<char>, owner: Seq<char>, rights: Seq<char>)
    ensures
        rehold(list, image, owner, rights).len() == list.len(),
        forall|i: int| 0 <= i < list.len() && list[i].owner != owner ==> #[trigger] rehold(list, image, owner, rights)[i] == list[i],
        forall|i: int| 0 <= i < list.len() && list[i].image != image ==> #[trigger] rehold(list, image, owner, rights)[i] == list[i],
        forall|i: int| 0 <= i < list.len() && list[i].image == image && list[i].owner == owner ==> {
            &&& (#[trigger] rehold(list, image, owner, rights)[i]).rights == rights
            &&& rehold(list, image, owner, rights)[i].image == list[i].image
            &&& rehold(list, image, owner, rights)[i].owner == list[i].owner
            &&& rehold(list, image, owner, rights)[i].data == list[i].data
        },
{
}

/// Storing the bytes of `image` from `owner` changes only the held images
/// with that id from that owner, and of those only the bytes.
pub proof fn lemma_refill_only_matching(list: Seq<HeldView>, image: Seq<char>, owner: Seq<char>, data: Seq<u8>)
    ensures
        refill(list, image, owner, data).len() == list.len(),
        forall|i: int| 0 <= i < list.len() && list[i].owner != owner ==> #[trigger] refill(list, image, owner, data)[i] == list[i],
        forall|i: int| 0 <= i < list.len() && list[i].image != image ==> #[trigger] refill(list, image, owner, data)[i] == list[i],
        forall|i: int| 0 <= i < list.len() && list[i].image == image && list[i].owner == owner ==> {
            &&& (#[trigger] refill(list, image, owner, data)[i]).data == data
            &&& refill(list, image, owner, data)[i].image == list[i].image
            &&& refill(list, image, owner, data)[i].owner == list[i].owner
            &&& refill(list, image, owner, data)[i].rights == list[i].rights
        },
{
}

/// Setting the rights granted to `client` on `image` changes only the
/// grants to that client on that image, and of those only the rights.
pub proof fn lemma_regrant_only_matching(list: Seq<GrantView>, client: Seq<char>, image: Seq<char>, rights: Seq<char>)
    ensures
        regrant(list, client, image, rights).len() == list.len(),
        forall|i: int| 0 <= i < list.len() && list[i].client != client ==> #[trigger] regrant(list, client, image, rights)[i] == list[i],
        forall|i: int| 0 <= i < list.len() && list[i].image != image ==> #[trigger] regrant(list, client, image, rights)[i] == list[i],
        forall|i: int| 0 <= i < list.len() && list[i].image == image && list[i].client == client ==> {
            &&& (#[trigger] regrant(list, client, image, rights)[i]).rights == rights
            &&& regrant(list, client, image, rights)[i].image == list[i].image
            &&& regrant(list, client, image, rights)[i].client == list[i].client
        },
{
}

} // verus!
