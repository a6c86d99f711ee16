//! The Discord objects the client handles: users, guilds, channels with their
//! permission overwrites, roles, and messages with attachments and embeds.
use vstd::prelude::*;

use crate::text::{chars_of, copy_opt};

verus! {

/// Discord identifiers travel as decimal strings.
pub type Snowflake = String;

#[derive(Debug, Clone)]
pub struct User {
    pub id: Snowflake,
    pub username: String,
    pub global_name: Option<String>,
    pub discriminator: Option<String>,
    pub avatar: Option<String>,
}

#[derive(Debug, Clone)]
pub struct Guild {
    pub id: Snowflake,
    pub name: String,
    pub icon: Option<String>,
}

#[derive(Debug, Clone)]
pub struct Channel {
    pub id: Snowflake,
    pub name: Option<String>,
    pub kind: u8,
    pub guild_id: Option<Snowflake>,
    pub position: Option<i32>,
    pub parent_id: Option<Snowflake>,
    pub permission_overwrites: Vec<Overwrite>,
}

/// A permission overwrite of a channel; `kind` 0 targets a role, 1 a member.
#[derive(Debug, Clone)]
pub struct Overwrite {
    pub id: Snowflake,
    pub kind: u8,
    pub allow: String,
    pub deny: String,
}

#[derive(Debug, Clone)]
pub struct Role {
    pub id: Snowflake,
    pub name: String,
    pub permissions: String,
    pub position: i64,
    pub color: u32,
}

#[derive(Debug, Clone)]
pub struct Message {
    pub id: Snowflake,
    pub channel_id: Snowflake,
    pub content: String,
    pub author: User,
    pub timestamp: Option<String>,
    pub edited_timestamp: Option<String>,
    pub mentions: Vec<User>,
    pub mention_roles: Vec<Snowflake>,
    pub attachments: Vec<Attachment>,
    pub embeds: Vec<Embed>,
    pub referenced_message: Option<Box<ReferencedMessage>>,
}

/// The message that a reply answers. It has the fields of a message but for
/// its own reference, which Discord does not nest.
#[derive(Debug, Clone)]
pub struct ReferencedMessage {
    pub id: Snowflake,
    pub channel_id: Snowflake,
    pub content: String,
    pub author: User,
    pub timestamp: Option<String>,
    pub edited_timestamp: Option<String>,
    pub mentions: Vec<User>,
    pub mention_roles: Vec<Snowflake>,
    pub attachments: Vec<Attachment>,
    pub embeds: Vec<Embed>,
}

#[derive(Debug, Clone)]
pub struct Attachment {
    pub id: Snowflake,
    pub filename: String,
    pub content_type: Option<String>,
    pub url: String,
    pub proxy_url: String,
    pub size: u64,
    pub width: Option<u32>,
    pub height: Option<u32>,
}

#[derive(Debug, Clone)]
pub struct Embed {
    pub kind: Option<String>,
    pub title: Option<String>,
    pub description: Option<String>,
    pub url: Option<String>,
    pub color: Option<u32>,
    pub author: Option<EmbedAuthor>,
    pub fields: Vec<EmbedField>,
    pub image: Option<EmbedMedia>,
    pub thumbnail: Option<EmbedMedia>,
    pub footer: Option<EmbedFooter>,
}

#[derive(Debug, Clone)]
pub struct EmbedAuthor {
    pub name: String,
    pub icon_url: Option<String>,
}

#[derive(Debug, Clone)]
pub struct EmbedField {
    pub name: String,
    pub value: String,
    pub inline: bool,
}

#[derive(Debug, Clone)]
pub struct EmbedMedia {
    pub url: String,
    pub proxy_url: Option<String>,
    pub width: Option<u32>,
    pub height: Option<u32>,
}

#[derive(Debug, Clone)]
pub struct EmbedFooter {
    pub text: String,
    pub icon_url: Option<String>,
}

impl Overwrite {
    /// A copy of this overwrite.
    pub fn copy(&self) -> (r: Overwrite)
        ensures
            r == *self,
    {
        Overwrite { id: self.id.clone(), kind: self.kind, allow: self.allow.clone(), deny: self.deny.clone() }
    }
}

/// The abstract value of a channel: its strings as character sequences.
pub struct ChannelView {
    pub id: Seq<char>,
    pub name: Option<Seq<char>>,
    pub kind: u8,
    pub guild_id: Option<Seq<char>>,
    pub position: Option<i32>,
    pub parent_id: Option<Seq<char>>,
    pub permission_overwrites: Seq<Overwrite>,
}

impl View for Channel {
    type V = ChannelView;

    open spec fn view(&self) -> ChannelView {
        ChannelView {
            id: self.id@,
            name: crate::text::opt_view(self.name),
            kind: self.kind,
            guild_id: crate::text::opt_view(self.guild_id),
            position: self.position,
            parent_id: crate::text::opt_view(self.parent_id),
            permission_overwrites: self.permission_overwrites@,
        }
    }
}

impl Channel {
    /// A copy of this channel, equal to it in every field.
    pub fn copy(&self) -> (r: Channel)
        ensures
            r@ == self@,
    {
        let mut ows: Vec<Overwrite> = Vec::new();
        let mut i: usize = 0;
        while i < self.permission_overwrites.len()
            invariant
                i <= self.permission_overwrites@.len(),
                ows@ == self.permission_overwrites@.take(i as int),
            decreases self.permission_overwrites@.len() - i,
        {
            ows.push(self.permission_overwrites[i].copy());
            i = i + 1;
            assert(ows@ =~= self.permission_overwrites@.take(i as int));
        }
        assert(self.permission_overwrites@.take(i as int) == self.permission_overwrites@);
        Channel {
            id: self.id.clone(),
            name: copy_opt(&self.name),
            kind: self.kind,
            guild_id: copy_opt(&self.guild_id),
            position: self.position,
            parent_id: copy_opt(&self.parent_id),
            permission_overwrites: ows,
        }
    }
}

/// ASCII lower-casing of one character, as `str::to_ascii_lowercase` does.
pub open spec fn ascii_lower(c: char) -> char {
    if 'A' <= c <= 'Z' {
        ((c as u32) + 32) as char
    } else {
        c
    }
}

/// ASCII lower-casing of a whole string.
pub open spec fn ascii_lower_seq(s: Seq<char>) -> Seq<char> {
    s.map_values(|c: char| ascii_lower(c))
}

/// Whether `s` begins with `p`.
pub open spec fn has_prefix(s: Seq<char>, p: Seq<char>) -> bool {
    p.len() <= s.len() && s.take(p.len() as int) == p
}

/// Whether `s` ends with `p`.
pub open spec fn has_suffix(s: Seq<char>, p: Seq<char>) -> bool {
    p.len() <= s.len() && s.skip(s.len() - p.len()) == p
}

/// The file extensions under which an attachment counts as an image.
pub open spec fn image_extensions() -> Seq<Seq<char>> {
    seq![".png"@, ".jpg"@, ".jpeg"@, ".gif"@, ".webp"@, ".bmp"@]
}

/// Whether a content type and a file name designate an image.
pub open spec fn is_image_spec(content_type: Option<Seq<char>>, filename: Seq<char>) -> bool {
    (content_type matches Some(ct) && has_prefix(ct, "image/"@)) || exists|i: int|
        0 <= i < image_extensions().len() && has_suffix(
            ascii_lower_seq(filename),
            #[trigger] image_extensions()[i],
        )
}

/// Whether the characters `v[at..]` begin with `p`.
fn starts_at(v: &Vec<char>, at: usize, p: &Vec<char>) -> (r: bool)
    requires
        at <= v@.len(),
    ensures
        r == has_prefix(v@.skip(at as int), p@),
{
    if p.len() > v.len() - at {
        return false;
    }
    let mut i: usize = 0;
    while i < p.len()
        invariant
            i <= p@.len(),
            at + p@.len() <= v@.len(),
            v@.len() == v.len(),
            forall|j: int| 0 <= j < i ==> v@[at + j] == p@[j],
        decreases p@.len() - i,
    {
        assert(at + i < v@.len());
        if v[at + i] != p[i] {
            assert(v@.skip(at as int).take(p@.len() as int)[i as int] != p@[i as int]);
            return false;
        }
        i = i + 1;
    }
    assert(v@.skip(at as int).take(p@.len() as int) =~= p@);
    true
}

/// Lower-cases the ASCII letters of `v`.
fn lower_ascii(v: &Vec<char>) -> (r: Vec<char>)
    ensures
        r@ == ascii_lower_seq(v@),
{
    let mut r: Vec<char> = Vec::new();
    let mut i: usize = 0;
    while i < v.len()
        invariant
            i <= v@.len(),
            r@ =~= ascii_lower_seq(v@.take(i as int)),
        decreases v@.len() - i,
    {
        let c = v[i];
        let l = if 'A' <= c && c <= 'Z' {
            ((c as u32 + 32) as u8) as char
        } else {
            c
        };
        r.push(l);
        i = i + 1;
        assert(ascii_lower_seq(v@.take(i as int)) =~= ascii_lower_seq(v@.take(i - 1)).push(
            ascii_lower(v@[i - 1]),
        ));
    }
    assert(v@.take(i as int) == v@);
    r
}

impl Attachment {
    /// An attachment is an image when its content type starts with `image/`
    /// or its file name, lower-cased, ends in a common image extension.
    pub fn is_image(&self) -> (r: bool)
        ensures
            r == is_image_spec(crate::text::opt_view(self.content_type), self.filename@),
    {
        if let Some(ct) = &self.content_type {
            let c = chars_of(ct.as_str());
            let p = chars_of("image/");
            if starts_at(&c, 0, &p) {
                assert(c@.skip(0) == c@);
                return true;
            }
            assert(c@.skip(0) == c@);
        }
        let f = chars_of(self.filename.as_str());
        let lower = lower_ascii(&f);
        let exts = [".png", ".jpg", ".jpeg", ".gif", ".webp", ".bmp"];
        let mut k: usize = 0;
        while k < 6
            invariant
                k <= 6,
                lower@ == ascii_lower_seq(self.filename@),
                exts@.len() == 6,
                forall|j: int| 0 <= j < 6 ==> (#[trigger] exts@[j])@ == image_extensions()[j],
                forall|j: int|
                    0 <= j < k ==> !has_suffix(lower@, #[trigger] image_extensions()[j]),
            decreases 6 - k,
        {
            let e = chars_of(exts[k]);
            if e.len() <= lower.len() {
                let at = lower.len() - e.len();
                if starts_at(&lower, at, &e) {
                    assert(lower@.skip(at as int).take(e@.len() as int) == lower@.skip(at as int));
                    assert(has_suffix(lower@, image_extensions()[k as int]));
                    return true;
                }
                assert(lower@.skip(at as int).take(e@.len() as int) == lower@.skip(at as int));
            }
            k = k + 1;
        }
        false
    }
}

} // verus!
