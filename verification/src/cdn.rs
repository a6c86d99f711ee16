//! URLs of avatars on Discord's CDN.
use vstd::prelude::*;
use vstd::string::StringExecFns;

use crate::models::{has_prefix, User};
use crate::text::{chars_of, decimal, parse_or_zero, parse_u64, push_decimal, str_eq};

verus! {

/// An uploaded avatar: animated ones (hash starting with `a_`) are GIFs.
pub open spec fn avatar_url_spec(user_id: Seq<char>, hash: Seq<char>, size: u32) -> Seq<char> {
    "https://cdn.discordapp.com/avatars/"@ + user_id + "/"@ + hash + "."@ + (if has_prefix(
        hash,
        "a_"@,
    ) {
        "gif"@
    } else {
        "png"@
    }) + "?size="@ + decimal(size as nat)
}

pub fn avatar_url(user_id: &str, hash: &str, size: u32) -> (r: String)
    ensures
        r@ == avatar_url_spec(user_id@, hash@, size),
{
    let h = chars_of(hash);
    let animated = h.len() >= 2 && h[0] == 'a' && h[1] == '_';
    proof {
        reveal_strlit("a_");
        assert("a_"@ == seq!['a', '_']);
        if h@.len() >= 2 {
            assert(animated == (h@.take(2) =~= seq!['a', '_']));
        }
    }
    let mut r = String::new();
    r.append("https://cdn.discordapp.com/avatars/");
    r.append(user_id);
    r.append("/");
    r.append(hash);
    r.append(".");
    if animated {
        r.append("gif");
    } else {
        r.append("png");
    }
    r.append("?size=");
    push_decimal(&mut r, size as u64);
    r
}

/// The index of a default avatar: from the id for the new username system
/// (no discriminator, or `0`), from the legacy discriminator otherwise.
pub open spec fn default_avatar_index(user_id: Seq<char>, discriminator: Option<Seq<char>>) -> nat {
    match discriminator {
        Some(d) => if d == "0"@ {
            ((parse_or_zero(user_id) / 4194304) % 6) as nat
        } else {
            (parse_or_zero(d) % 5) as nat
        },
        None => ((parse_or_zero(user_id) / 4194304) % 6) as nat,
    }
}

pub open spec fn default_avatar_url_spec(user_id: Seq<char>, discriminator: Option<Seq<char>>) -> Seq<
    char,
> {
    "https://cdn.discordapp.com/embed/avatars/"@ + decimal(
        default_avatar_index(user_id, discriminator),
    ) + ".png"@
}

fn parse_or_zero_exec(s: &str) -> (r: u64)
    ensures
        r == parse_or_zero(s@),
{
    match parse_u64(s) {
        Some(v) => v,
        None => 0,
    }
}

pub fn default_avatar_url(user_id: &str, discriminator: Option<&str>) -> (r: String)
    ensures
        r@ == default_avatar_url_spec(
            user_id@,
            match discriminator {
                Some(d) => Some(d@),
                None => None,
            },
        ),
{
    let new_system = match discriminator {
        Some(d) => str_eq(d, "0"),
        None => true,
    };
    let index: u64 = if new_system {
        let id = parse_or_zero_exec(user_id);
        assert(id >> 22u64 == id / 4194304) by (bit_vector);
        (id >> 22u64) % 6
    } else {
        match discriminator {
            Some(d) => parse_or_zero_exec(d) % 5,
            None => 0,
        }
    };
    let mut r = String::new();
    r.append("https://cdn.discordapp.com/embed/avatars/");
    push_decimal(&mut r, index);
    r.append(".png");
    r
}

/// The avatar of a user: the uploaded one when there is a non-empty hash,
/// the default one otherwise.
pub open spec fn avatar_for_spec(user: User) -> Seq<char> {
    match user.avatar {
        Some(hash) => if hash@.len() > 0 {
            avatar_url_spec(user.id@, hash@, 80)
        } else {
            default_avatar_url_spec(user.id@, crate::text::opt_view(user.discriminator))
        },
        None => default_avatar_url_spec(user.id@, crate::text::opt_view(user.discriminator)),
    }
}

pub fn avatar_for(user: &User) -> (r: String)
    ensures
        r@ == avatar_for_spec(*user),
{
    let disc: Option<&str> = match &user.discriminator {
        Some(d) => Some(d.as_str()),
        None => None,
    };
    match &user.avatar {
        Some(hash) => {
            if !hash.as_str().is_empty() {
                return avatar_url(user.id.as_str(), hash.as_str(), 80);
            }
        },
        None => {},
    }
    default_avatar_url(user.id.as_str(), disc)
}

} // verus!
