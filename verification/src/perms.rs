//! Discord's permission computation: base permissions from roles, then the
//! channel overwrites of `@everyone`, of the member's roles and of the member.
use vstd::prelude::*;

use crate::models::{Channel, Overwrite, Role, Snowflake};
use crate::text::{parse_or_zero, parse_u64, str_eq};

verus! {

/// Bypasses every channel overwrite.
pub const ADMINISTRATOR: u64 = 8;

/// Lets the member see a channel.
pub const VIEW_CHANNEL: u64 = 1024;

/// A bitfield given as a decimal string; what does not parse counts as no bits.
pub fn parse(s: &str) -> (r: u64)
    ensures
        r == parse_or_zero(s@),
{
    match parse_u64(s) {
        Some(v) => v,
        None => 0,
    }
}

/// `init` or-ed with every element of `s`.
pub open spec fn or_fold(init: u64, s: Seq<u64>) -> u64
    decreases s.len(),
{
    if s.len() == 0 {
        init
    } else {
        or_fold(init, s.drop_last()) | s.last()
    }
}

/// Base permissions: everything for the owner; otherwise `@everyone` or-ed
/// with the member's roles, and everything once that includes ADMINISTRATOR.
pub open spec fn base_permissions_spec(everyone_perms: u64, member_role_perms: Seq<u64>, is_owner: bool) -> u64 {
    if is_owner {
        u64::MAX
    } else if or_fold(everyone_perms, member_role_perms) & ADMINISTRATOR != 0 {
        u64::MAX
    } else {
        or_fold(everyone_perms, member_role_perms)
    }
}

pub fn base_permissions(everyone_perms: u64, member_role_perms: &[u64], is_owner: bool) -> (r: u64)
    ensures
        r == base_permissions_spec(everyone_perms, member_role_perms@, is_owner),
{
    if is_owner {
        return u64::MAX;
    }
    let mut perms = everyone_perms;
    let mut i: usize = 0;
    while i < member_role_perms.len()
        invariant
            i <= member_role_perms@.len(),
            perms == or_fold(everyone_perms, member_role_perms@.take(i as int)),
        decreases member_role_perms@.len() - i,
    {
        perms = perms | member_role_perms[i];
        i = i + 1;
        assert(member_role_perms@.take(i as int).drop_last() == member_role_perms@.take(i - 1));
    }
    assert(member_role_perms@.take(i as int) == member_role_perms@);
    if perms & ADMINISTRATOR != 0 {
        return u64::MAX;
    }
    perms
}

/// Whether bit `k` of `x` is set.
pub open spec fn has_bit(x: u64, k: u64) -> bool {
    (x >> k) & 1 == 1
}

/// An or-fold holds every bit of its start and of each element.
proof fn lemma_or_fold_contains(e: u64, s: Seq<u64>)
    ensures
        or_fold(e, s) & e == e,
        forall|i: int| 0 <= i < s.len() ==> or_fold(e, s) & #[trigger] s[i] == s[i],
    decreases s.len(),
{
    if s.len() > 0 {
        let t = s.drop_last();
        lemma_or_fold_contains(e, t);
        let a = or_fold(e, t);
        let b = s.last();
        assert((a | b) & b == b) by (bit_vector);
        assert((a | b) & e == e) by (bit_vector)
            requires
                a & e == e,
        ;
        assert forall|i: int| 0 <= i < s.len() implies (a | b) & #[trigger] s[i] == s[i] by {
            if i < s.len() - 1 {
                let x = s[i];
                assert(t[i] == x);
                assert((a | b) & x == x) by (bit_vector)
                    requires
                        a & x == x,
                ;
            }
        }
    } else {
        assert(e & e == e) by (bit_vector);
    }
}

/// Every bit of an or-fold comes from its start or from one element.
proof fn lemma_or_fold_bits(e: u64, s: Seq<u64>, k: u64)
    requires
        k < 64,
    ensures
        has_bit(or_fold(e, s), k) ==> has_bit(e, k) || exists|i: int|
            0 <= i < s.len() && has_bit(#[trigger] s[i], k),
    decreases s.len(),
{
    if s.len() > 0 {
        let t = s.drop_last();
        lemma_or_fold_bits(e, t, k);
        let a = or_fold(e, t);
        let b = s.last();
        assert(((a | b) >> k) & 1 == 1 ==> (a >> k) & 1 == 1 || (b >> k) & 1 == 1) by (bit_vector)
            requires
                k < 64,
        ;
        if has_bit(a, k) && !has_bit(e, k) {
            let i = choose|i: int| 0 <= i < t.len() && has_bit(#[trigger] t[i], k);
            assert(s[i] == t[i]);
        }
        if has_bit(b, k) {
            assert(has_bit(s[s.len() - 1], k));
        }
    }
}

/// Base permissions hold every permission of `@everyone` and of each of the
/// member's roles, whoever the member is; short of the owner and of
/// ADMINISTRATOR they hold nothing else: each of their bits is granted by
/// `@everyone` or by one of the roles.
pub proof fn law_base_permissions_from_roles(
    everyone_perms: u64,
    member_role_perms: Seq<u64>,
    is_owner: bool,
    k: u64,
)
    ensures
        ({
            let b = base_permissions_spec(everyone_perms, member_role_perms, is_owner);
            &&& b & everyone_perms == everyone_perms
            &&& forall|i: int|
                0 <= i < member_role_perms.len() ==> b & #[trigger] member_role_perms[i]
                    == member_role_perms[i]
            &&& k < 64 && !is_owner && b & ADMINISTRATOR == 0 && has_bit(b, k) ==> has_bit(
                everyone_perms,
                k,
            ) || exists|i: int|
                0 <= i < member_role_perms.len() && has_bit(#[trigger] member_role_perms[i], k)
        }),
{
    let b = base_permissions_spec(everyone_perms, member_role_perms, is_owner);
    lemma_or_fold_contains(everyone_perms, member_role_perms);
    if k < 64 {
        lemma_or_fold_bits(everyone_perms, member_role_perms, k);
    }
    if b == u64::MAX {
        assert(forall|x: u64| #[trigger] (u64::MAX & x) == x) by (bit_vector);
        assert forall|i: int| 0 <= i < member_role_perms.len() implies b & #[trigger] member_role_perms[i]
            == member_role_perms[i] by {
            assert(u64::MAX & member_role_perms[i] == member_role_perms[i]);
        }
        assert(u64::MAX & everyone_perms == everyone_perms);
    }
}

/// Applying one overwrite: its denied bits are removed, then its allowed bits added.
pub open spec fn apply_overwrite(perms: u64, allow: u64, deny: u64) -> u64 {
    (perms & !deny) | allow
}

/// The first overwrite of `ows` at or after `i` with this kind and target id.
pub open spec fn find_overwrite(ows: Seq<Overwrite>, kind: u8, id: Seq<char>, i: int) -> Option<Overwrite>
    decreases ows.len() - i,
{
    if i < 0 || i >= ows.len() {
        None
    } else if ows[i].kind == kind && ows[i].id@ == id {
        Some(ows[i])
    } else {
        find_overwrite(ows, kind, id, i + 1)
    }
}

/// Whether one of `ids` is `id`.
pub open spec fn ids_contain(ids: Seq<String>, id: Seq<char>) -> bool {
    exists|j: int| 0 <= j < ids.len() && (#[trigger] ids[j])@ == id
}

/// Whether an overwrite targets one of the member's roles.
pub open spec fn targets_member_role(o: Overwrite, role_ids: Seq<String>) -> bool {
    o.kind == 0 && ids_contain(role_ids, o.id@)
}

/// The allowed (`allow` true) or denied bits of every overwrite that targets
/// one of the member's roles, or-ed together.
pub open spec fn role_overwrites_fold(ows: Seq<Overwrite>, role_ids: Seq<String>, allow: bool) -> u64
    decreases ows.len(),
{
    if ows.len() == 0 {
        0
    } else {
        let rest = role_overwrites_fold(ows.drop_last(), role_ids, allow);
        if targets_member_role(ows.last(), role_ids) {
            rest | parse_or_zero(if allow { ows.last().allow@ } else { ows.last().deny@ })
        } else {
            rest
        }
    }
}

/// Applies an optional overwrite.
pub open spec fn apply_found(perms: u64, o: Option<Overwrite>) -> u64 {
    match o {
        Some(o) => apply_overwrite(perms, parse_or_zero(o.allow@), parse_or_zero(o.deny@)),
        None => perms,
    }
}

/// The permissions of a member in a channel, following Discord's algorithm.
pub open spec fn channel_permissions_spec(
    base: u64,
    ows: Seq<Overwrite>,
    everyone_id: Seq<char>,
    member_role_ids: Seq<String>,
    me_id: Seq<char>,
) -> u64 {
    if base & ADMINISTRATOR != 0 {
        base
    } else {
        let p1 = apply_found(base, find_overwrite(ows, 0, everyone_id, 0));
        let p2 = apply_overwrite(
            p1,
            role_overwrites_fold(ows, member_role_ids, true),
            role_overwrites_fold(ows, member_role_ids, false),
        );
        apply_found(p2, find_overwrite(ows, 1, me_id, 0))
    }
}

/// The first overwrite with this kind and target, if any.
fn find_exec(ows: &[Overwrite], kind: u8, id: &str) -> (r: Option<usize>)
    ensures
        match r {
            Some(i) => i < ows@.len() && find_overwrite(ows@, kind, id@, 0) == Some(ows@[i as int]),
            None => find_overwrite(ows@, kind, id@, 0) is None,
        },
{
    let mut i: usize = 0;
    while i < ows.len()
        invariant
            i <= ows@.len(),
            find_overwrite(ows@, kind, id@, 0) == find_overwrite(ows@, kind, id@, i as int),
        decreases ows@.len() - i,
    {
        if ows[i].kind == kind && str_eq(ows[i].id.as_str(), id) {
            return Some(i);
        }
        i = i + 1;
    }
    None
}

/// Whether one of `ids` equals `id`.
pub fn contains_id(ids: &[Snowflake], id: &str) -> (r: bool)
    ensures
        r == ids_contain(ids@, id@),
{
    let mut j: usize = 0;
    while j < ids.len()
        invariant
            j <= ids@.len(),
            forall|k: int| 0 <= k < j ==> (#[trigger] ids@[k])@ != id@,
        decreases ids@.len() - j,
    {
        if str_eq(ids[j].as_str(), id) {
            return true;
        }
        j = j + 1;
    }
    false
}

/// Applies the channel's overwrites: `@everyone`, then the member's roles
/// together, then the member; ADMINISTRATOR bypasses them all.
pub fn channel_permissions(
    base: u64,
    overwrites: &[Overwrite],
    everyone_id: &str,
    member_role_ids: &[Snowflake],
    me_id: &str,
) -> (r: u64)
    ensures
        r == channel_permissions_spec(base, overwrites@, everyone_id@, member_role_ids@, me_id@),
{
    if base & ADMINISTRATOR != 0 {
        return base;
    }
    let mut perms = base;
    if let Some(i) = find_exec(overwrites, 0, everyone_id) {
        let o = &overwrites[i];
        perms = (perms & !parse(o.deny.as_str())) | parse(o.allow.as_str());
    }
    let ghost p1 = perms;
    let mut allow: u64 = 0;
    let mut deny: u64 = 0;
    let mut k: usize = 0;
    while k < overwrites.len()
        invariant
            k <= overwrites@.len(),
            allow == role_overwrites_fold(overwrites@.take(k as int), member_role_ids@, true),
            deny == role_overwrites_fold(overwrites@.take(k as int), member_role_ids@, false),
        decreases overwrites@.len() - k,
    {
        let o = &overwrites[k];
        let hit = o.kind == 0 && contains_id(member_role_ids, o.id.as_str());
        if hit {
            allow = allow | parse(o.allow.as_str());
            deny = deny | parse(o.deny.as_str());
        }
        k = k + 1;
        assert(overwrites@.take(k as int).drop_last() == overwrites@.take(k - 1));
        assert(overwrites@.take(k as int).last() == overwrites@[k - 1]);
    }
    assert(overwrites@.take(k as int) == overwrites@);
    perms = (perms & !deny) | allow;
    if let Some(i) = find_exec(overwrites, 1, me_id) {
        let o = &overwrites[i];
        perms = (perms & !parse(o.deny.as_str())) | parse(o.allow.as_str());
    }
    perms
}

/// Whether the member can see the channel.
pub open spec fn can_view_spec(
    base: u64,
    ows: Seq<Overwrite>,
    everyone_id: Seq<char>,
    member_role_ids: Seq<String>,
    me_id: Seq<char>,
) -> bool {
    channel_permissions_spec(base, ows, everyone_id, member_role_ids, me_id) & VIEW_CHANNEL != 0
}

pub fn can_view_channel(
    base: u64,
    overwrites: &[Overwrite],
    everyone_id: &str,
    member_role_ids: &[Snowflake],
    me_id: &str,
) -> (r: bool)
    ensures
        r == can_view_spec(base, overwrites@, everyone_id@, member_role_ids@, me_id@),
{
    channel_permissions(base, overwrites, everyone_id, member_role_ids, me_id) & VIEW_CHANNEL != 0
}

/// The guild owner sees every channel, whatever its overwrites.
pub proof fn law_owner_sees_every_channel(
    everyone_perms: u64,
    member_role_perms: Seq<u64>,
    ows: Seq<Overwrite>,
    everyone_id: Seq<char>,
    member_role_ids: Seq<String>,
    me_id: Seq<char>,
)
    ensures
        base_permissions_spec(everyone_perms, member_role_perms, true) == u64::MAX,
        can_view_spec(
            base_permissions_spec(everyone_perms, member_role_perms, true),
            ows,
            everyone_id,
            member_role_ids,
            me_id,
        ),
{
    assert(u64::MAX & ADMINISTRATOR != 0) by (bit_vector);
    assert(u64::MAX & VIEW_CHANNEL != 0) by (bit_vector);
}

/// A member whose roles grant ADMINISTRATOR has every permission and sees
/// every channel, whatever its overwrites.
pub proof fn law_administrator_sees_every_channel(
    everyone_perms: u64,
    member_role_perms: Seq<u64>,
    ows: Seq<Overwrite>,
    everyone_id: Seq<char>,
    member_role_ids: Seq<String>,
    me_id: Seq<char>,
)
    requires
        or_fold(everyone_perms, member_role_perms) & ADMINISTRATOR != 0,
    ensures
        base_permissions_spec(everyone_perms, member_role_perms, false) == u64::MAX,
        can_view_spec(
            base_permissions_spec(everyone_perms, member_role_perms, false),
            ows,
            everyone_id,
            member_role_ids,
            me_id,
        ),
{
    assert(u64::MAX & ADMINISTRATOR != 0) by (bit_vector);
    assert(u64::MAX & VIEW_CHANNEL != 0) by (bit_vector);
}

/// Base permissions that include ADMINISTRATOR pass through every overwrite
/// unchanged.
pub proof fn law_administrator_bypasses_overwrites(
    base: u64,
    ows: Seq<Overwrite>,
    everyone_id: Seq<char>,
    member_role_ids: Seq<String>,
    me_id: Seq<char>,
)
    requires
        base & ADMINISTRATOR != 0,
    ensures
        channel_permissions_spec(base, ows, everyone_id, member_role_ids, me_id) == base,
{
}

/// The member's own overwrite has the last word on seeing a channel (short
/// of ADMINISTRATOR): allowing VIEW_CHANNEL shows it, denying it without
/// allowing it hides it, whatever `@everyone` and the roles say.
pub proof fn law_member_overwrite_decides(
    base: u64,
    ows: Seq<Overwrite>,
    everyone_id: Seq<char>,
    member_role_ids: Seq<String>,
    me_id: Seq<char>,
    o: Overwrite,
)
    requires
        base & ADMINISTRATOR == 0,
        find_overwrite(ows, 1, me_id, 0) == Some(o),
    ensures
        parse_or_zero(o.allow@) & VIEW_CHANNEL != 0 ==> can_view_spec(
            base,
            ows,
            everyone_id,
            member_role_ids,
            me_id,
        ),
        parse_or_zero(o.deny@) & VIEW_CHANNEL != 0 && parse_or_zero(o.allow@) & VIEW_CHANNEL == 0
            ==> !can_view_spec(base, ows, everyone_id, member_role_ids, me_id),
{
    let p1 = apply_found(base, find_overwrite(ows, 0, everyone_id, 0));
    let p2 = apply_overwrite(
        p1,
        role_overwrites_fold(ows, member_role_ids, true),
        role_overwrites_fold(ows, member_role_ids, false),
    );
    let a = parse_or_zero(o.allow@);
    let d = parse_or_zero(o.deny@);
    assert(a & 1024 != 0 ==> ((p2 & !d) | a) & 1024 != 0) by (bit_vector);
    assert(d & 1024 != 0 && a & 1024 == 0 ==> ((p2 & !d) | a) & 1024 == 0) by (bit_vector);
}

/// Short of ADMINISTRATOR and with no overwrite of its own, a member one of whose roles is allowed
/// VIEW_CHANNEL by the channel sees it, even where `@everyone` is denied it.
pub proof fn law_role_allow_beats_everyone_deny(
    base: u64,
    ows: Seq<Overwrite>,
    everyone_id: Seq<char>,
    member_role_ids: Seq<String>,
    me_id: Seq<char>,
)
    requires
        base & ADMINISTRATOR == 0,
        find_overwrite(ows, 1, me_id, 0) is None,
        role_overwrites_fold(ows, member_role_ids, true) & VIEW_CHANNEL != 0,
    ensures
        can_view_spec(base, ows, everyone_id, member_role_ids, me_id),
{
    let p1 = apply_found(base, find_overwrite(ows, 0, everyone_id, 0));
    let a = role_overwrites_fold(ows, member_role_ids, true);
    let d = role_overwrites_fold(ows, member_role_ids, false);
    assert(a & 1024 != 0 ==> ((p1 & !d) | a) & 1024 != 0) by (bit_vector);
}

/// The first role of `roles` whose id is `id`.
pub open spec fn find_role(roles: Seq<Role>, id: Seq<char>, i: int) -> Option<Role>
    decreases roles.len() - i,
{
    if i < 0 || i >= roles.len() {
        None
    } else if roles[i].id@ == id {
        Some(roles[i])
    } else {
        find_role(roles, id, i + 1)
    }
}

/// The permissions of the member's roles, in the order of `roles`.
pub open spec fn member_role_perms(roles: Seq<Role>, member_roles: Seq<String>) -> Seq<u64>
    decreases roles.len(),
{
    if roles.len() == 0 {
        Seq::empty()
    } else {
        let rest = member_role_perms(roles.drop_last(), member_roles);
        if ids_contain(member_roles, roles.last().id@) {
            rest.push(parse_or_zero(roles.last().permissions@))
        } else {
            rest
        }
    }
}

/// The member's base permissions in a guild: the `@everyone` role is the
/// one whose id is the guild's.
pub open spec fn guild_base_spec(
    roles: Seq<Role>,
    owner_id: Seq<char>,
    member_roles: Seq<String>,
    me_id: Seq<char>,
    guild_id: Seq<char>,
) -> u64 {
    let everyone = match find_role(roles, guild_id, 0) {
        Some(r) => parse_or_zero(r.permissions@),
        None => 0,
    };
    base_permissions_spec(everyone, member_role_perms(roles, member_roles), me_id == owner_id)
}

/// Whether the member can see a channel of the guild.
pub open spec fn channel_visible(
    c: Channel,
    roles: Seq<Role>,
    owner_id: Seq<char>,
    member_roles: Seq<String>,
    me_id: Seq<char>,
    guild_id: Seq<char>,
) -> bool {
    can_view_spec(
        guild_base_spec(roles, owner_id, member_roles, me_id, guild_id),
        c.permission_overwrites@,
        guild_id,
        member_roles,
        me_id,
    )
}

/// The first role with this id, if any.
fn find_role_exec(roles: &[Role], id: &str) -> (r: Option<usize>)
    ensures
        match r {
            Some(i) => i < roles@.len() && find_role(roles@, id@, 0) == Some(roles@[i as int]),
            None => find_role(roles@, id@, 0) is None,
        },
{
    let mut i: usize = 0;
    while i < roles.len()
        invariant
            i <= roles@.len(),
            find_role(roles@, id@, 0) == find_role(roles@, id@, i as int),
        decreases roles@.len() - i,
    {
        if str_eq(roles[i].id.as_str(), id) {
            return Some(i);
        }
        i = i + 1;
    }
    None
}

/// Whether channel `i` of `channels` is one the member can see, and has this id.
pub open spec fn visible_with_id(
    channels: Seq<Channel>,
    i: int,
    id: Seq<char>,
    roles: Seq<Role>,
    owner_id: Seq<char>,
    member_roles: Seq<String>,
    me_id: Seq<char>,
    guild_id: Seq<char>,
) -> bool {
    0 <= i < channels.len() && channels[i].id@ == id && channel_visible(
        channels[i],
        roles,
        owner_id,
        member_roles,
        me_id,
        guild_id,
    )
}

/// Whether `id` is the id of a channel the member can see.
pub open spec fn id_visible(
    id: Seq<char>,
    channels: Seq<Channel>,
    roles: Seq<Role>,
    owner_id: Seq<char>,
    member_roles: Seq<String>,
    me_id: Seq<char>,
    guild_id: Seq<char>,
) -> bool {
    exists|i: int|
        #[trigger] visible_with_id(channels, i, id, roles, owner_id, member_roles, me_id, guild_id)
}

/// The ids of the channels the member can see, each once.
pub fn visible_channel_ids(
    channels: &[Channel],
    roles: &[Role],
    owner_id: &str,
    member_roles: &[Snowflake],
    me_id: &str,
    guild_id: &str,
) -> (r: Vec<Snowflake>)
    ensures
        forall|j: int|
            0 <= j < r@.len() ==> id_visible(
                (#[trigger] r@[j])@,
                channels@,
                roles@,
                owner_id@,
                member_roles@,
                me_id@,
                guild_id@,
            ),
        forall|i: int|
            0 <= i < channels@.len() && channel_visible(
                #[trigger] channels@[i],
                roles@,
                owner_id@,
                member_roles@,
                me_id@,
                guild_id@,
            ) ==> ids_contain(r@, channels@[i].id@),
        forall|a: int, b: int| 0 <= a < b < r@.len() ==> (#[trigger] r@[a])@ != (#[trigger] r@[b])@,
{
    let everyone_perms: u64 = match find_role_exec(roles, guild_id) {
        Some(i) => parse(roles[i].permissions.as_str()),
        None => 0,
    };
    let ghost everyone_spec = match find_role(roles@, guild_id@, 0) {
        Some(r) => parse_or_zero(r.permissions@),
        None => 0,
    };
    assert(everyone_perms == everyone_spec);
    let mut perms: Vec<u64> = Vec::new();
    let mut k: usize = 0;
    while k < roles.len()
        invariant
            k <= roles@.len(),
            perms@ == member_role_perms(roles@.take(k as int), member_roles@),
        decreases roles@.len() - k,
    {
        if contains_id(member_roles, roles[k].id.as_str()) {
            perms.push(parse(roles[k].permissions.as_str()));
        }
        k = k + 1;
        assert(roles@.take(k as int).drop_last() == roles@.take(k - 1));
    }
    assert(roles@.take(k as int) == roles@);
    let is_owner = str_eq(me_id, owner_id);
    let base = base_permissions(everyone_perms, perms.as_slice(), is_owner);
    assert(base == guild_base_spec(roles@, owner_id@, member_roles@, me_id@, guild_id@));
    let mut out: Vec<Snowflake> = Vec::new();
    let ghost mut src: Seq<int> = Seq::empty();
    let mut c: usize = 0;
    while c < channels.len()
        invariant
            c <= channels@.len(),
            base == guild_base_spec(roles@, owner_id@, member_roles@, me_id@, guild_id@),
            src.len() == out@.len(),
            forall|j: int|
                0 <= j < out@.len() ==> visible_with_id(
                    channels@,
                    #[trigger] src[j],
                    out@[j]@,
                    roles@,
                    owner_id@,
                    member_roles@,
                    me_id@,
                    guild_id@,
                ),
            forall|i: int|
                0 <= i < c && channel_visible(
                    #[trigger] channels@[i],
                    roles@,
                    owner_id@,
                    member_roles@,
                    me_id@,
                    guild_id@,
                ) ==> ids_contain(out@, channels@[i].id@),
            forall|a: int, b: int|
                0 <= a < b < out@.len() ==> (#[trigger] out@[a])@ != (#[trigger] out@[b])@,
        decreases channels@.len() - c,
    {
        let ch = &channels[c];
        let vis = can_view_channel(base, ch.permission_overwrites.as_slice(), guild_id, member_roles, me_id);
        if vis {
            if !contains_id(out.as_slice(), ch.id.as_str()) {
                let ghost before = out@;
                let ghost src0 = src;
                out.push(ch.id.clone());
                proof {
                    src = src.push(c as int);
                }
                assert forall|j: int| 0 <= j < out@.len() implies visible_with_id(
                    channels@,
                    #[trigger] src[j],
                    out@[j]@,
                    roles@,
                    owner_id@,
                    member_roles@,
                    me_id@,
                    guild_id@,
                ) by {
                    if j < before.len() {
                        assert(out@[j] == before[j]);
                        assert(src[j] == src0[j]);
                    }
                }
                assert forall|i: int|
                    0 <= i < c + 1 && channel_visible(
                        #[trigger] channels@[i],
                        roles@,
                        owner_id@,
                        member_roles@,
                        me_id@,
                        guild_id@,
                    ) implies ids_contain(out@, channels@[i].id@) by {
                    if i < c {
                        let j = choose|j: int| 0 <= j < before.len() && (#[trigger] before[j])@ == channels@[i].id@;
                        assert(out@[j] == before[j]);
                    } else {
                        assert(out@[before.len() as int]@ == channels@[i].id@);
                    }
                }
            }
        }
        c = c + 1;
    }
    assert forall|j: int| 0 <= j < out@.len() implies id_visible(
        (#[trigger] out@[j])@,
        channels@,
        roles@,
        owner_id@,
        member_roles@,
        me_id@,
        guild_id@,
    ) by {
        assert(visible_with_id(channels@, src[j], out@[j]@, roles@, owner_id@, member_roles@, me_id@, guild_id@));
    }
    out
}

} // verus!
