//! The image files a client reads and writes: the images it sends for
//! encryption and the sample images it hands out and receives.

use vstd::prelude::*;
use crate::text::{append_str, push_decimal, decimal};

verus! {

/// How many images the `encrypt` command sends, one per round.
pub const ENCRYPT_ROUNDS: u32 = 3;

/// How many sample images a client hands out, and how many it waits for.
pub const SAMPLE_COUNT: u32 = 3;

/// The image a client sends for encryption in round `i` (counting from 0)
/// of its `encrypt` command; rounds past the third send the first image.
pub open spec fn encrypt_source_text(i: u32) -> Seq<char> {
    if i == 1 {
        "image2.jpg"@
    } else if i == 2 {
        "image3.jpg"@
    } else {
        "image1.jpg"@
    }
}

/// The image a client sends for encryption in round `i`.
pub fn encrypt_source_file(i: u32) -> (r: String)
    ensures
        r@ == encrypt_source_text(i),
{
    let mut r = String::new();
    if i == 1 {
        append_str(&mut r, "image2.jpg");
    } else if i == 2 {
        append_str(&mut r, "image3.jpg");
    } else {
        append_str(&mut r, "image1.jpg");
    }
    r
}

/// `prefix`, the number `n` in decimal, then `suffix`.
pub open spec fn numbered_text(prefix: Seq<char>, n: nat, suffix: Seq<char>) -> Seq<char> {
    prefix + decimal(n) + suffix
}

fn numbered_file(prefix: &str, n: u32, suffix: &str) -> (r: String)
    ensures
        r@ == numbered_text(prefix@, n as nat, suffix@),
{
    let mut r = String::new();
    append_str(&mut r, prefix);
    push_decimal(&mut r, n as u64);
    append_str(&mut r, suffix);
    r
}

/// The `k`-th sample image (counting from 1) that a client hands out.
pub fn sample_file(k: u32) -> (r: String)
    ensures
        r@ == numbered_text("sample"@, k as nat, ".jpg"@),
{
    numbered_file("sample", k, ".jpg")
}

/// Where a client saves the `k`-th sample image (counting from 1) it
/// receives.
pub fn received_sample_file(k: u32) -> (r: String)
    ensures
        r@ == numbered_text("samples"@, k as nat, ".png"@),
{
    numbered_file("samples", k, ".png")
}

} // verus!
