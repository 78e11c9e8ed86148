//! Relay tiers: lists of relay names in falling priority, and the choice among those online.
use vstd::prelude::*;

use crate::text;

verus! {

/// The relay names of `tiers`.
pub open spec fn tier_texts(tiers: Seq<Vec<String>>) -> Seq<Seq<Seq<char>>> {
    tiers.map_values(|tier: Vec<String>| text::texts(tier@))
}

/// The relay names of a comma-separated tier.
pub open spec fn relays_of(tier: Seq<char>) -> Seq<Seq<char>> {
    text::kept(text::pieces(tier, ','))
}

/// The tiers with a relay, each written as a comma-separated list.
pub open spec fn kept_tiers(parts: Seq<Seq<char>>) -> Seq<Seq<Seq<char>>> {
    parts.map_values(|part: Seq<char>| relays_of(part)).filter(
        |tier: Seq<Seq<char>>| tier.len() > 0,
    )
}

/// The tiers that `raw` lists, with `>` between them.
pub open spec fn tiers_of(raw: Seq<char>) -> Seq<Seq<Seq<char>>> {
    kept_tiers(text::pieces(raw, '>'))
}

/// The first online relay whose name is `name` up to ASCII case.
pub open spec fn online_name(online: Seq<Seq<char>>, name: Seq<char>) -> Option<Seq<char>>
    decreases online.len(),
{
    if online.len() == 0 {
        None
    } else if text::alike(online[0], name) {
        Some(online[0])
    } else {
        online_name(online.drop_first(), name)
    }
}

/// The online relays of `tier`, in the order of `tier`.
pub open spec fn available(tier: Seq<Seq<char>>, online: Seq<Seq<char>>) -> Seq<Seq<char>>
    decreases tier.len(),
{
    if tier.len() == 0 {
        Seq::empty()
    } else {
        let rest = available(tier.drop_last(), online);
        match online_name(online, tier.last()) {
            Some(relay) => rest.push(relay),
            None => rest,
        }
    }
}

/// The online relays of the first tier that has any.
pub open spec fn serving(tiers: Seq<Seq<Seq<char>>>, online: Seq<Seq<char>>) -> Option<
    Seq<Seq<char>>,
>
    decreases tiers.len(),
{
    if tiers.len() == 0 {
        None
    } else if available(tiers[0], online).len() > 0 {
        Some(available(tiers[0], online))
    } else {
        serving(tiers.drop_first(), online)
    }
}

/// The relay that turn number `turn` gets.
pub open spec fn pick(
    tiers: Seq<Seq<Seq<char>>>,
    online: Seq<Seq<char>>,
    turn: nat,
) -> Option<Seq<char>> {
    match serving(tiers, online) {
        Some(relays) => Some(relays[(turn % relays.len()) as int]),
        None => None,
    }
}

/// The turn after `turn`; the count starts over after the largest number.
pub open spec fn next_turn(turn: usize) -> usize {
    if turn == usize::MAX {
        0
    } else {
        (turn + 1) as usize
    }
}

/// The turn after a choice made at `turn`: only a choice that found a relay uses it up.
pub open spec fn turn_after(turn: usize, found: bool) -> usize {
    if found {
        next_turn(turn)
    } else {
        turn
    }
}

proof fn lemma_kept_tiers_push(parts: Seq<Seq<char>>, part: Seq<char>)
    ensures
        kept_tiers(parts.push(part)) == if relays_of(part).len() > 0 {
            kept_tiers(parts).push(relays_of(part))
        } else {
            kept_tiers(parts)
        },
{
    reveal(Seq::filter);
    let read = |part: Seq<char>| relays_of(part);
    assert(parts.push(part).map_values(read).drop_last() == parts.map_values(read));
}

/// The tiers that `raw` lists, with `>` between them.
pub fn split_tiers(raw: &str) -> (out: Vec<Vec<String>>)
    ensures
        tier_texts(out@) == tiers_of(raw@),
{
    let parts: Vec<String> = text::split(raw, '>');
    let mut out: Vec<Vec<String>> = Vec::new();
    let mut i: usize = 0;
    proof {
        reveal(Seq::filter);
        assert(tier_texts(out@) == kept_tiers(text::texts(parts@).take(0)));
    }
    while i < parts.len()
        invariant
            i <= parts@.len(),
            tier_texts(out@) == kept_tiers(text::texts(parts@).take(i as int)),
        decreases parts.len() - i,
    {
        let tier: Vec<String> = text::split_kept(parts[i].as_str(), ',');
        proof {
            lemma_kept_tiers_push(text::texts(parts@).take(i as int), parts@[i as int]@);
            assert(text::texts(parts@).take(i + 1) == text::texts(parts@).take(i as int).push(
                parts@[i as int]@,
            ));
            assert(text::texts(tier@).len() == tier@.len());
        }
        if tier.len() > 0 {
            let ghost before = tier_texts(out@);
            out.push(tier);
            assert(tier_texts(out@) == before.push(text::texts(tier@)));
        }
        i = i + 1;
    }
    assert(text::texts(parts@).take(i as int) == text::texts(parts@));
    out
}

fn find_online(online: &[String], name: &str) -> (out: Option<String>)
    ensures
        text::maybe_text(out) == online_name(text::texts(online@), name@),
{
    let mut i: usize = 0;
    assert(text::texts(online@).skip(0) == text::texts(online@));
    while i < online.len()
        invariant
            i <= online@.len(),
            online_name(text::texts(online@).skip(i as int), name@) == online_name(
                text::texts(online@),
                name@,
            ),
        decreases online.len() - i,
    {
        if text::same_ignoring_case(online[i].as_str(), name) {
            return Some(online[i].clone());
        }
        assert(text::texts(online@).skip(i as int).drop_first() == text::texts(online@).skip(i + 1));
        i = i + 1;
    }
    None
}

fn find_available(tier: &Vec<String>, online: &[String]) -> (out: Vec<String>)
    ensures
        text::texts(out@) == available(text::texts(tier@), text::texts(online@)),
{
    let mut out: Vec<String> = Vec::new();
    let mut i: usize = 0;
    assert(text::texts(out@) == available(text::texts(tier@).take(0), text::texts(online@)));
    while i < tier.len()
        invariant
            i <= tier@.len(),
            text::texts(out@) == available(text::texts(tier@).take(i as int), text::texts(online@)),
        decreases tier.len() - i,
    {
        assert(text::texts(tier@).take(i + 1).drop_last() == text::texts(tier@).take(i as int));
        let ghost before = text::texts(out@);
        match find_online(online, tier[i].as_str()) {
            Some(relay) => {
                out.push(relay);
                assert(text::texts(out@) == before.push(relay@));
            },
            None => {},
        }
        i = i + 1;
    }
    assert(text::texts(tier@).take(i as int) == text::texts(tier@));
    out
}

/// Chooses among the online relays of the first tier that has any, in turn.
pub fn select_from_tiers(tiers: &[Vec<String>], online: &[String], rotation: &mut usize) -> (out:
    Option<String>)
    ensures
        text::maybe_text(out) == pick(tier_texts(tiers@), text::texts(online@), *old(rotation) as nat),
        *final(rotation) == turn_after(*old(rotation), out is Some),
{
    let mut i: usize = 0;
    assert(tier_texts(tiers@).skip(0) == tier_texts(tiers@));
    while i < tiers.len()
        invariant
            i <= tiers@.len(),
            *rotation == *old(rotation),
            serving(tier_texts(tiers@).skip(i as int), text::texts(online@)) == serving(
                tier_texts(tiers@),
                text::texts(online@),
            ),
        decreases tiers.len() - i,
    {
        let relays: Vec<String> = find_available(&tiers[i], online);
        let ghost rest = tier_texts(tiers@).skip(i as int);
        assert(rest[0] == text::texts(tiers@[i as int]@));
        assert(text::texts(relays@).len() == relays@.len());
        if relays.len() > 0 {
            let turn: usize = *rotation;
            *rotation = turn.wrapping_add(1);
            let k: usize = turn % relays.len();
            assert(text::texts(relays@)[k as int] == relays@[k as int]@);
            return Some(relays[k].clone());
        }
        assert(rest.drop_first() == tier_texts(tiers@).skip(i + 1));
        i = i + 1;
    }
    None
}

/// Whether an online relay is called `name` up to ASCII case.
pub open spec fn is_online(online: Seq<Seq<char>>, name: Seq<char>) -> bool {
    exists|k: int| 0 <= k < online.len() && text::alike(#[trigger] online[k], name)
}

/// Whether one of the relays of `tier` is online.
pub open spec fn has_online(tier: Seq<Seq<char>>, online: Seq<Seq<char>>) -> bool {
    exists|j: int| 0 <= j < tier.len() && is_online(online, #[trigger] tier[j])
}

proof fn lemma_online_name(online: Seq<Seq<char>>, name: Seq<char>)
    ensures
        online_name(online, name) is Some == is_online(online, name),
        online_name(online, name) matches Some(relay) ==> online.contains(relay) && text::alike(
            relay,
            name,
        ),
    decreases online.len(),
{
    if online.len() > 0 {
        let rest = online.drop_first();
        lemma_online_name(rest, name);
        if text::alike(online[0], name) {
            assert(online.contains(online[0]));
        } else {
            if is_online(online, name) {
                let k = choose|k: int|
                    0 <= k < online.len() && text::alike(#[trigger] online[k], name);
                assert(rest[k - 1] == online[k]);
            }
            if is_online(rest, name) {
                let k = choose|k: int| 0 <= k < rest.len() && text::alike(#[trigger] rest[k], name);
                assert(online[k + 1] == rest[k]);
                let relay = online_name(rest, name)->0;
                let at = choose|at: int| 0 <= at < rest.len() && rest[at] == relay;
                assert(online[at + 1] == relay);
            }
        }
    }
}

/// The relays on offer are online and named by the tier; there are some where the tier names one
/// that is online, and only there.
pub proof fn available_relays_are_online(tier: Seq<Seq<char>>, online: Seq<Seq<char>>)
    ensures
        forall|i: int|
            0 <= i < available(tier, online).len() ==> online.contains(
                #[trigger] available(tier, online)[i],
            ) && exists|j: int|
                0 <= j < tier.len() && text::alike(
                    available(tier, online)[i],
                    #[trigger] tier[j],
                ),
        (available(tier, online).len() > 0) == has_online(tier, online),
    decreases tier.len(),
{
    if tier.len() > 0 {
        let rest = tier.drop_last();
        let last = tier.last();
        available_relays_are_online(rest, online);
        lemma_online_name(online, last);
        let relays = available(tier, online);
        let before = available(rest, online);
        assert forall|i: int| 0 <= i < relays.len() implies online.contains(#[trigger] relays[i])
            && exists|j: int|
            0 <= j < tier.len() && text::alike(relays[i], #[trigger] tier[j]) by {
            if i < before.len() {
                assert(relays[i] == before[i]);
                let j = choose|j: int|
                    0 <= j < rest.len() && text::alike(before[i], #[trigger] rest[j]);
                assert(tier[j] == rest[j]);
            } else {
                assert(tier[tier.len() - 1] == last);
            }
        }
        if has_online(tier, online) {
            let j = choose|j: int| 0 <= j < tier.len() && is_online(online, #[trigger] tier[j]);
            if j < rest.len() {
                assert(rest[j] == tier[j]);
            }
        }
        if has_online(rest, online) {
            let j = choose|j: int| 0 <= j < rest.len() && is_online(online, #[trigger] rest[j]);
            assert(tier[j] == rest[j]);
        }
        if is_online(online, last) {
            assert(tier[tier.len() - 1] == last);
        }
    }
}

/// The first tier with a relay online serves; where there is none, no relay is chosen.
pub proof fn first_online_tier_serves(tiers: Seq<Seq<Seq<char>>>, online: Seq<Seq<char>>)
    ensures
        match serving(tiers, online) {
            Some(relays) => exists|i: int|
                {
                    &&& 0 <= i < tiers.len()
                    &&& relays == available(#[trigger] tiers[i], online)
                    &&& has_online(tiers[i], online)
                    &&& forall|k: int| 0 <= k < i ==> !has_online(#[trigger] tiers[k], online)
                },
            None => forall|i: int| 0 <= i < tiers.len() ==> !has_online(#[trigger] tiers[i], online),
        },
    decreases tiers.len(),
{
    if tiers.len() > 0 {
        available_relays_are_online(tiers[0], online);
        if available(tiers[0], online).len() == 0 {
            let rest = tiers.drop_first();
            first_online_tier_serves(rest, online);
            match serving(rest, online) {
                Some(relays) => {
                    let i = choose|i: int|
                        {
                            &&& 0 <= i < rest.len()
                            &&& relays == available(#[trigger] rest[i], online)
                            &&& has_online(rest[i], online)
                            &&& forall|k: int|
                                0 <= k < i ==> !has_online(#[trigger] rest[k], online)
                        };
                    assert(tiers[i + 1] == rest[i]);
                    assert forall|k: int| 0 <= k < i + 1 implies !has_online(
                        #[trigger] tiers[k],
                        online,
                    ) by {
                        if k > 0 {
                            assert(rest[k - 1] == tiers[k]);
                        }
                    }
                },
                None => {
                    assert forall|i: int| 0 <= i < tiers.len() implies !has_online(
                        #[trigger] tiers[i],
                        online,
                    ) by {
                        if i > 0 {
                            assert(rest[i - 1] == tiers[i]);
                        }
                    }
                },
            }
        }
    }
}

/// Whether `relay` is a relay that `tier` names, up to ASCII case.
pub open spec fn names(tier: Seq<Seq<char>>, relay: Seq<char>) -> bool {
    exists|j: int| 0 <= j < tier.len() && text::alike(relay, #[trigger] tier[j])
}

/// The chosen relay is online and named by a tier before which no tier has a relay online; none
/// is chosen where, and only where, no tier has one.
pub proof fn choice_is_online_and_foremost(
    tiers: Seq<Seq<Seq<char>>>,
    online: Seq<Seq<char>>,
    turn: nat,
)
    ensures
        match pick(tiers, online, turn) {
            Some(relay) => online.contains(relay) && exists|i: int|
                {
                    &&& 0 <= i < tiers.len()
                    &&& names(#[trigger] tiers[i], relay)
                    &&& forall|k: int| 0 <= k < i ==> !has_online(#[trigger] tiers[k], online)
                },
            None => forall|i: int| 0 <= i < tiers.len() ==> !has_online(#[trigger] tiers[i], online),
        },
{
    first_online_tier_serves(tiers, online);
    match serving(tiers, online) {
        Some(relays) => {
            let i = choose|i: int|
                {
                    &&& 0 <= i < tiers.len()
                    &&& relays == available(#[trigger] tiers[i], online)
                    &&& has_online(tiers[i], online)
                    &&& forall|k: int| 0 <= k < i ==> !has_online(#[trigger] tiers[k], online)
                };
            available_relays_are_online(tiers[i], online);
            let at = (turn % relays.len()) as int;
            assert(online.contains(relays[at]));
            assert(names(tiers[i], relays[at]));
        },
        None => {},
    }
}

/// The turn after `steps` choices that each found a relay.
pub open spec fn turn_after_steps(turn: usize, steps: nat) -> usize
    decreases steps,
{
    if steps == 0 {
        turn
    } else {
        next_turn(turn_after_steps(turn, (steps - 1) as nat))
    }
}

proof fn lemma_steps(turn: usize, steps: nat)
    requires
        steps <= usize::MAX,
    ensures
        turn_after_steps(turn, steps) == if turn + steps <= usize::MAX {
            turn + steps
        } else {
            turn + steps - (usize::MAX + 1)
        },
    decreases steps,
{
    if steps > 0 {
        lemma_steps(turn, (steps - 1) as nat);
    }
}

/// How many choices lie between `turn` and the one that takes the relay at `at` out of `count`.
pub open spec fn steps_to(turn: usize, at: int, count: nat) -> nat {
    ((at - turn) % count as int) as nat
}

proof fn lemma_steps_to(turn: usize, at: int, count: nat, step: nat)
    requires
        0 <= at < count,
        step < count,
    ensures
        steps_to(turn, at, count) < count,
        ((turn + step) % count as int == at) == (step == steps_to(turn, at, count)),
{
    let n = count as int;
    let t = turn as int;
    let s = step as int;
    vstd::arithmetic::div_mod::lemma_mod_bound(at - t, n);
    vstd::arithmetic::div_mod::lemma_add_mod_noop_right(t, at - t, n);
    vstd::arithmetic::div_mod::lemma_small_mod(at as nat, count);
    if (t + s) % n == at {
        vstd::arithmetic::div_mod::lemma_sub_mod_noop(t + s, t, n);
        vstd::arithmetic::div_mod::lemma_sub_mod_noop(at, t, n);
        vstd::arithmetic::div_mod::lemma_small_mod(step, count);
        assert((t + s) - t == s);
    }
}

/// Choices in a row go round: among as many of them as there are relays on offer, exactly one
/// takes the relay at `at`. The count of turns must not start over in between, unless it does so
/// after a multiple of the number of relays.
pub proof fn turns_go_round(
    tiers: Seq<Seq<Seq<char>>>,
    online: Seq<Seq<char>>,
    relays: Seq<Seq<char>>,
    turn: usize,
    at: int,
)
    requires
        serving(tiers, online) == Some(relays),
        0 <= at < relays.len(),
        relays.len() <= usize::MAX,
        turn + relays.len() <= usize::MAX + 1 || (usize::MAX + 1) % relays.len() as int == 0,
    ensures
        steps_to(turn, at, relays.len()) < relays.len(),
        forall|step: nat|
            step < relays.len() ==> {
                let then_turn = #[trigger] turn_after_steps(turn, step);
                &&& pick(tiers, online, then_turn as nat) == Some(
                    relays[(then_turn as nat % relays.len()) as int],
                )
                &&& (then_turn as nat % relays.len() == at) == (step == steps_to(
                    turn,
                    at,
                    relays.len(),
                ))
            },
{
    lemma_steps_to(turn, at, relays.len(), 0);
    assert forall|step: nat| step < relays.len() implies {
        let then_turn = #[trigger] turn_after_steps(turn, step);
        &&& pick(tiers, online, then_turn as nat) == Some(
            relays[(then_turn as nat % relays.len()) as int],
        )
        &&& (then_turn as nat % relays.len() == at) == (step == steps_to(turn, at, relays.len()))
    } by {
        lemma_steps(turn, step);
        lemma_steps_to(turn, at, relays.len(), step);
        let n = relays.len() as int;
        if turn + step > usize::MAX {
            vstd::arithmetic::div_mod::lemma_sub_mod_noop(turn + step, usize::MAX + 1, n);
            vstd::arithmetic::div_mod::lemma_mod_twice(turn + step, n);
        }
    }
}

/// Whether `tiers` names a relay in every tier, with no blank or untrimmed name, and has a tier.
pub open spec fn is_usable(tiers: Seq<Seq<Seq<char>>>) -> bool {
    &&& tiers.len() > 0
    &&& forall|i: int| 0 <= i < tiers.len() ==> is_usable_tier(#[trigger] tiers[i])
}

/// Whether `tier` names a relay, and no name in it is blank or untrimmed.
pub open spec fn is_usable_tier(tier: Seq<Seq<char>>) -> bool {
    &&& tier.len() > 0
    &&& forall|j: int|
        0 <= j < tier.len() ==> text::is_trim(#[trigger] tier[j]) && !text::is_blank(tier[j])
}

proof fn lemma_kept_tiers(parts: Seq<Seq<char>>)
    ensures
        forall|i: int|
            0 <= i < kept_tiers(parts).len() ==> is_usable_tier(#[trigger] kept_tiers(parts)[i]),
    decreases parts.len(),
{
    if parts.len() == 0 {
        reveal(Seq::filter);
        assert(kept_tiers(parts).len() == 0);
    } else {
        lemma_kept_tiers(parts.drop_last());
        lemma_kept_tiers_push(parts.drop_last(), parts.last());
        assert(parts.drop_last().push(parts.last()) == parts);
        text::kept_parts_are_clean(text::pieces(parts.last(), ','));
    }
}

/// Where a text lists any tier, the tiers that it lists are usable.
pub proof fn listed_tiers_are_usable(raw: Seq<char>)
    ensures
        tiers_of(raw).len() > 0 ==> is_usable(tiers_of(raw)),
{
    lemma_kept_tiers(text::pieces(raw, '>'));
}

/// The first online relay that is alike is the one that a name stands for.
pub proof fn name_stands_for_the_first_alike(online: Seq<Seq<char>>, name: Seq<char>, k: int)
    requires
        0 <= k <= online.len(),
        forall|j: int| 0 <= j < k ==> !text::alike(#[trigger] online[j], name),
        k < online.len() ==> text::alike(online[k], name),
    ensures
        online_name(online, name) == if k < online.len() {
            Some(online[k])
        } else {
            None
        },
    decreases online.len(),
{
    if k > 0 {
        let rest = online.drop_first();
        assert(!text::alike(online[0], name));
        assert forall|j: int| 0 <= j < k - 1 implies !text::alike(#[trigger] rest[j], name) by {
            assert(rest[j] == online[j + 1]);
        }
        name_stands_for_the_first_alike(rest, name, k - 1);
    }
}

/// How many of the first `count` names of `tier` are online.
pub open spec fn online_among(tier: Seq<Seq<char>>, online: Seq<Seq<char>>, count: nat) -> nat
    decreases count,
{
    if count == 0 {
        0
    } else {
        let before = online_among(tier, online, (count - 1) as nat);
        if is_online(online, tier[count - 1]) {
            before + 1
        } else {
            before
        }
    }
}

/// Every name of a tier that is online puts one relay on offer, which is the one that it stands
/// for, and the relays are in the order of the names: as many stand before it as names before it
/// are online. Nothing else is on offer.
pub proof fn every_online_name_is_on_offer(tier: Seq<Seq<char>>, online: Seq<Seq<char>>)
    ensures
        available(tier, online).len() == online_among(tier, online, tier.len()),
        forall|j: int|
            0 <= j < tier.len() && is_online(online, #[trigger] tier[j]) ==> {
                let at = online_among(tier, online, j as nat) as int;
                &&& 0 <= at < available(tier, online).len()
                &&& online_name(online, tier[j]) == Some(available(tier, online)[at])
                &&& text::alike(available(tier, online)[at], tier[j])
            },
    decreases tier.len(),
{
    if tier.len() > 0 {
        let rest = tier.drop_last();
        let (relays, before) = (available(tier, online), available(rest, online));
        every_online_name_is_on_offer(rest, online);
        lemma_online_name(online, tier.last());
        lemma_same_count(rest, tier, online, rest.len());
        assert forall|j: int| 0 <= j < tier.len() && is_online(online, #[trigger] tier[j]) implies {
            let at = online_among(tier, online, j as nat) as int;
            &&& 0 <= at < relays.len()
            &&& online_name(online, tier[j]) == Some(relays[at])
            &&& text::alike(relays[at], tier[j])
        } by {
            if j < rest.len() {
                assert(rest[j] == tier[j]);
                lemma_same_count(rest, tier, online, j as nat);
                let at = online_among(tier, online, j as nat) as int;
                assert(relays[at] == before[at]);
            } else {
                assert(tier[j] == tier.last());
            }
        }
    }
}

proof fn lemma_same_count(
    one: Seq<Seq<char>>,
    other: Seq<Seq<char>>,
    online: Seq<Seq<char>>,
    count: nat,
)
    requires
        count <= one.len(),
        count <= other.len(),
        forall|j: int| 0 <= j < count ==> #[trigger] one[j] == other[j],
    ensures
        online_among(one, online, count) == online_among(other, online, count),
    decreases count,
{
    if count > 0 {
        assert(one[count - 1] == other[count - 1]);
        lemma_same_count(one, other, online, (count - 1) as nat);
    }
}

proof fn lemma_count_grows(tier: Seq<Seq<char>>, online: Seq<Seq<char>>, j: nat, count: nat)
    requires
        j <= count,
    ensures
        online_among(tier, online, j) <= online_among(tier, online, count),
    decreases count,
{
    if j < count {
        lemma_count_grows(tier, online, j, (count - 1) as nat);
    }
}

/// The first tier with a name online serves, and its names that are online take turns in their
/// order: of `count` such names, turn number `turn` goes to the one before which `turn % count`
/// are online, and gets the first online relay that is alike.
pub proof fn online_names_take_turns(
    tiers: Seq<Seq<Seq<char>>>,
    online: Seq<Seq<char>>,
    i: int,
    j: int,
    k: int,
    turn: nat,
)
    requires
        0 <= i < tiers.len(),
        0 <= j < tiers[i].len(),
        0 <= k < online.len(),
        forall|above: int| 0 <= above < i ==> !has_online(#[trigger] tiers[above], online),
        text::alike(online[k], tiers[i][j]),
        forall|before: int| 0 <= before < k ==> !text::alike(#[trigger] online[before], tiers[i][j]),
        online_among(tiers[i], online, j as nat) == turn % online_among(
            tiers[i],
            online,
            tiers[i].len(),
        ),
    ensures
        pick(tiers, online, turn) == Some(online[k]),
    decreases tiers.len(),
{
    if i > 0 {
        let rest = tiers.drop_first();
        assert(!has_online(tiers[0], online));
        available_relays_are_online(tiers[0], online);
        assert forall|above: int| 0 <= above < i - 1 implies !has_online(
            #[trigger] rest[above],
            online,
        ) by {
            assert(rest[above] == tiers[above + 1]);
        }
        assert(rest[i - 1] == tiers[i]);
        online_names_take_turns(rest, online, i - 1, j, k, turn);
    } else {
        let tier = tiers[0];
        assert(is_online(online, tier[j]));
        every_online_name_is_on_offer(tier, online);
        name_stands_for_the_first_alike(online, tier[j], k);
    }
}

/// Choices in a row go round among the names of the serving tier that are online: of as many
/// choices as there are such names, one takes the relay that a given name stands for. The count
/// of turns must not start over in between.
pub proof fn every_online_name_gets_its_turn(
    tiers: Seq<Seq<Seq<char>>>,
    online: Seq<Seq<char>>,
    i: int,
    j: int,
    turn: usize,
)
    requires
        0 <= i < tiers.len(),
        0 <= j < tiers[i].len(),
        forall|above: int| 0 <= above < i ==> !has_online(#[trigger] tiers[above], online),
        is_online(online, tiers[i][j]),
        turn + online_among(tiers[i], online, tiers[i].len()) <= usize::MAX + 1,
    ensures
        exists|step: nat|
            {
                &&& step < online_among(tiers[i], online, tiers[i].len())
                &&& pick(tiers, online, (#[trigger] turn_after_steps(turn, step)) as nat)
                    == online_name(online, tiers[i][j])
            },
        online_name(online, tiers[i][j]) is Some,
{
    let tier = tiers[i];
    let count = online_among(tier, online, tier.len());
    let at = online_among(tier, online, j as nat);
    lemma_online_name(online, tier[j]);
    lemma_count_grows(tier, online, (j + 1) as nat, tier.len());
    assert(at < count);
    let step = steps_to(turn, at as int, count);
    lemma_steps_to(turn, at as int, count, 0);
    lemma_steps_to(turn, at as int, count, step);
    lemma_steps(turn, step);
    let k = lemma_first_alike(online, tier[j]);
    name_stands_for_the_first_alike(online, tier[j], k);
    let then_turn = turn_after_steps(turn, step);
    assert(then_turn as nat % count == at);
    online_names_take_turns(tiers, online, i, j, k, then_turn as nat);
}

proof fn lemma_first_alike(online: Seq<Seq<char>>, name: Seq<char>) -> (k: int)
    requires
        is_online(online, name),
    ensures
        0 <= k < online.len(),
        text::alike(online[k], name),
        forall|before: int| 0 <= before < k ==> !text::alike(#[trigger] online[before], name),
    decreases online.len(),
{
    if text::alike(online[0], name) {
        0
    } else {
        let rest = online.drop_first();
        let found = choose|k: int| 0 <= k < online.len() && text::alike(#[trigger] online[k], name);
        assert(rest[found - 1] == online[found]);
        let k = lemma_first_alike(rest, name) + 1;
        assert forall|before: int| 0 <= before < k implies !text::alike(
            #[trigger] online[before],
            name,
        ) by {
            if before > 0 {
                assert(rest[before - 1] == online[before]);
            }
        }
        k
    }
}

/// A choice moves the count of turns on by one, over the largest number to zero, and no choice
/// leaves it as it is.
pub proof fn only_a_choice_moves_the_count(turn: usize)
    ensures
        turn_after(turn, false) == turn,
        turn < usize::MAX ==> turn_after(turn, true) == turn + 1,
        turn == usize::MAX ==> turn_after(turn, true) == 0,
        next_turn(turn) == turn_after(turn, true),
{
}

proof fn lemma_kept_tiers_sum(one: Seq<Seq<char>>, other: Seq<Seq<char>>)
    ensures
        kept_tiers(one + other) == kept_tiers(one) + kept_tiers(other),
    decreases other.len(),
{
    if other.len() == 0 {
        reveal(Seq::filter);
        assert(kept_tiers(other) =~= Seq::<Seq<Seq<char>>>::empty());
        assert(one + other == one);
        assert(kept_tiers(one) + kept_tiers(other) == kept_tiers(one));
    } else {
        let rest = other.drop_last();
        lemma_kept_tiers_sum(one, rest);
        lemma_kept_tiers_push(one + rest, other.last());
        lemma_kept_tiers_push(rest, other.last());
        assert((one + rest).push(other.last()) == one + other);
        assert(rest.push(other.last()) == other);
        assert(kept_tiers(one + other) =~= kept_tiers(one) + kept_tiers(other));
    }
}

/// The sign `>` parts the tiers before it from those after it; what stands between two such signs
/// is one tier, or none where it names no relay.
pub proof fn signs_part_the_tiers(a: Seq<char>, b: Seq<char>)
    ensures
        tiers_of(a.push('>') + b) == tiers_of(a) + tiers_of(b),
        !a.contains('>') ==> tiers_of(a) == if relays_of(a).len() > 0 {
            seq![relays_of(a)]
        } else {
            Seq::empty()
        },
{
    text::separator_parts_the_pieces(a, '>', b);
    lemma_kept_tiers_sum(text::pieces(a, '>'), text::pieces(b, '>'));
    reveal(Seq::filter);
    let nothing = Seq::<Seq<char>>::empty();
    assert(kept_tiers(nothing) =~= Seq::<Seq<Seq<char>>>::empty());
    lemma_kept_tiers_push(nothing, a);
    assert(nothing.push(a) == seq![a]);
}

/// A comma parts the names before it from those after it; what stands between two commas is one
/// name without the white space around it, or none where there is nothing else.
pub proof fn commas_part_the_names(
    a: Seq<char>,
    b: Seq<char>,
    before: Seq<char>,
    name: Seq<char>,
    after: Seq<char>,
)
    requires
        text::all_space(before),
        text::is_trim(name),
        !name.contains(','),
        text::all_space(after),
    ensures
        relays_of(a.push(',') + b) == relays_of(a) + relays_of(b),
        relays_of(before + name + after) == if name.len() > 0 {
            seq![name]
        } else {
            Seq::empty()
        },
{
    text::separator_parts_the_pieces(a, ',', b);
    text::parts_are_kept_one_by_one(
        text::pieces(a, ','),
        before,
        name,
        after,
        text::pieces(b, ','),
    );
    let padded = before + name + after;
    if padded.contains(',') {
        let at = padded.index_of(',');
        if at < before.len() {
            assert(text::is_space(before[at]));
        } else if at < before.len() + name.len() {
            assert(name[at - before.len()] == ',');
        } else {
            assert(text::is_space(after[at - before.len() - name.len()]));
        }
        assert(false);
    }
    text::separator_parts_the_pieces(padded, ',', b);
}

/// The text that writes `tiers`: names with commas between them, tiers with `>` between them.
pub open spec fn written(tiers: Seq<Seq<Seq<char>>>) -> Seq<char> {
    text::joined(tiers.map_values(|tier: Seq<Seq<char>>| text::joined(tier, ',')), '>')
}

/// Whether no name holds one of the two signs that stand between names.
pub open spec fn are_plain(tiers: Seq<Seq<Seq<char>>>) -> bool {
    forall|i: int, j: int|
        0 <= i < tiers.len() && 0 <= j < tiers[i].len() ==> !(#[trigger] tiers[i][j]).contains(',')
            && !tiers[i][j].contains('>')
}

proof fn lemma_joined_without(parts: Seq<Seq<char>>, c: char, sign: char)
    requires
        c != sign,
        forall|i: int| 0 <= i < parts.len() ==> !(#[trigger] parts[i]).contains(sign),
    ensures
        !text::joined(parts, c).contains(sign),
    decreases parts.len(),
{
    if parts.len() > 1 {
        let rest = parts.drop_first();
        assert forall|i: int| 0 <= i < rest.len() implies !(#[trigger] rest[i]).contains(sign) by {
            assert(rest[i] == parts[i + 1]);
        }
        lemma_joined_without(rest, c, sign);
        let whole = text::joined(parts, c);
        assert(!parts[0].contains(sign));
        if whole.contains(sign) {
            let at = whole.index_of(sign);
            if at < parts[0].len() {
                assert(parts[0][at] == sign);
            } else if at > parts[0].len() {
                assert(text::joined(rest, c)[at - parts[0].len() - 1] == sign);
            }
            assert(false);
        }
    } else if parts.len() == 1 {
        assert(!parts[0].contains(sign));
    }
}

/// Tiers that are written down are read back as they were: no name is lost, none is added, and
/// all stay in their order.
pub proof fn written_tiers_are_read_back(tiers: Seq<Seq<Seq<char>>>)
    requires
        is_usable(tiers),
        are_plain(tiers),
    ensures
        tiers_of(written(tiers)) == tiers,
{
    let rows = tiers.map_values(|tier: Seq<Seq<char>>| text::joined(tier, ','));
    assert forall|i: int| 0 <= i < rows.len() implies !(#[trigger] rows[i]).contains('>')
        && relays_of(rows[i]) == tiers[i] by {
        let tier = tiers[i];
        assert(is_usable_tier(tier));
        assert forall|j: int| 0 <= j < tier.len() implies !(#[trigger] tier[j]).contains(',')
            && !tier[j].contains('>') by {
            assert(!tiers[i][j].contains(','));
        }
        lemma_joined_without(tier, ',', '>');
        text::joined_parts_are_the_pieces(tier, ',');
        text::clean_parts_are_kept(tier);
    }
    text::joined_parts_are_the_pieces(rows, '>');
    lemma_all_kept(rows, tiers);
}

proof fn lemma_all_kept(rows: Seq<Seq<char>>, tiers: Seq<Seq<Seq<char>>>)
    requires
        rows.len() == tiers.len(),
        forall|i: int| 0 <= i < rows.len() ==> relays_of(#[trigger] rows[i]) == tiers[i],
        forall|i: int| 0 <= i < tiers.len() ==> is_usable_tier(#[trigger] tiers[i]),
    ensures
        kept_tiers(rows) == tiers,
    decreases rows.len(),
{
    if rows.len() == 0 {
        reveal(Seq::filter);
        assert(kept_tiers(rows) =~= tiers);
    } else {
        let (fewer, rest) = (rows.drop_last(), tiers.drop_last());
        assert forall|i: int| 0 <= i < fewer.len() implies relays_of(#[trigger] fewer[i])
            == rest[i] by {
            assert(fewer[i] == rows[i]);
        }
        assert forall|i: int| 0 <= i < rest.len() implies is_usable_tier(#[trigger] rest[i]) by {
            assert(rest[i] == tiers[i]);
        }
        lemma_all_kept(fewer, rest);
        lemma_kept_tiers_push(fewer, rows.last());
        assert(fewer.push(rows.last()) == rows);
        assert(relays_of(rows[rows.len() - 1]) == tiers.last());
        assert(is_usable_tier(tiers[tiers.len() - 1]));
        assert(rest.push(tiers.last()) == tiers);
    }
}

/// The names of tiers are those of their strings, one for one.
pub proof fn tier_texts_are_those_of_the_strings(tiers: Seq<Vec<String>>)
    ensures
        tier_texts(tiers).len() == tiers.len(),
        forall|i: int, j: int|
            0 <= i < tiers.len() && 0 <= j < tiers[i]@.len() ==> #[trigger] tier_texts(tiers)[i][j]
                == tiers[i]@[j]@,
        forall|i: int|
            0 <= i < tiers.len() ==> (#[trigger] tier_texts(tiers)[i]).len() == tiers[i]@.len(),
{
}

/// Written tiers are trimmed and hold a sign only where a name does, but for those between names.
pub(crate) proof fn lemma_written(tiers: Seq<Seq<Seq<char>>>)
    requires
        is_usable(tiers),
        forall|i: int, j: int|
            0 <= i < tiers.len() && 0 <= j < tiers[i].len() ==> !(#[trigger] tiers[i][j]).contains(
                ';',
            ),
    ensures
        written(tiers).len() > 0,
        !text::is_space(written(tiers).last()),
        !written(tiers).contains(';'),
{
    let rows = tiers.map_values(|tier: Seq<Seq<char>>| text::joined(tier, ','));
    assert forall|i: int| 0 <= i < rows.len() implies !(#[trigger] rows[i]).contains(';')
        && rows[i].len() > 0 && !text::is_space(rows[i].last()) by {
        let tier = tiers[i];
        assert(is_usable_tier(tier));
        assert forall|j: int| 0 <= j < tier.len() implies !(#[trigger] tier[j]).contains(';')
            && tier[j].len() > 0 && !text::is_space(tier[j].last()) by {
            assert(!tiers[i][j].contains(';'));
            text::trimming_settles(tier[j]);
        }
        lemma_joined_without(tier, ',', ';');
        lemma_joined_end(tier, ',');
    }
    lemma_joined_without(rows, '>', ';');
    lemma_joined_end(rows, '>');
}

proof fn lemma_joined_end(parts: Seq<Seq<char>>, c: char)
    requires
        parts.len() > 0,
        parts.last().len() > 0,
    ensures
        text::joined(parts, c).len() > 0,
        text::joined(parts, c).last() == parts.last().last(),
    decreases parts.len(),
{
    if parts.len() > 1 {
        let rest = parts.drop_first();
        assert(rest.last() == parts.last());
        lemma_joined_end(rest, c);
        assert(text::joined(parts, c).last() == text::joined(rest, c).last());
    }
}

} // verus!
