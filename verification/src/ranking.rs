//! The aggregation itself: fold a pool of players into a champion and the
//! set of players tied with it, together with the specification that pins
//! the result down and the laws that hold of every aggregation.

use vstd::prelude::*;

use crate::player::{
    are_equal_players, beats, is_placeholder, is_stronger, is_younger, same_player, tied, Player,
    Pronostics,
};

verus! {

/// No player of `s` outranks `p`.
pub open spec fn undominated(s: Seq<Player>, p: Player) -> bool {
    forall|j: int| 0 <= j < s.len() ==> !beats(s[j], p)
}

/// Index `i` holds the first player of `s` that no other player outranks:
/// it is undominated, and it strictly beats everything before it (so no
/// earlier player is tied with it, let alone better).
pub open spec fn first_best(s: Seq<Player>, i: int) -> bool {
    &&& 0 <= i < s.len()
    &&& undominated(s, s[i])
    &&& forall|j: int| 0 <= j < i ==> beats(s[i], s[j])
}

/// The players of `s` tied with `ch`, in input order, duplicates kept.
pub open spec fn tied_with(s: Seq<Player>, ch: Player) -> Seq<Player>
    decreases s.len(),
{
    if s.len() == 0 {
        Seq::empty()
    } else if tied(s.last(), ch) {
        tied_with(s.drop_last(), ch).push(s.last())
    } else {
        tied_with(s.drop_last(), ch)
    }
}

/// Some player of `s` is structurally equal to `p`.
pub open spec fn contains_player(s: Seq<Player>, p: Player) -> bool {
    exists|i: int| 0 <= i < s.len() && same_player(s[i], p)
}

/// `s` with structural duplicates removed, keeping the first occurrence of
/// each player and the order of those first occurrences.
pub open spec fn distinct_firsts(s: Seq<Player>) -> Seq<Player>
    decreases s.len(),
{
    if s.len() == 0 {
        Seq::empty()
    } else if contains_player(s.drop_last(), s.last()) {
        distinct_firsts(s.drop_last())
    } else {
        distinct_firsts(s.drop_last()).push(s.last())
    }
}

/// What an aggregation of the pool `s` must return. For an empty pool, the
/// placeholder result. Otherwise the champion is the first undominated
/// player of the pool, and the possible champions are exactly the players
/// tied with the champion, first occurrences in input order, whenever the
/// pool holds at least two such entries; with fewer, the tie list is empty.
pub open spec fn valid_pronostics(s: Seq<Player>, r: Pronostics) -> bool {
    if s.len() == 0 {
        is_placeholder(r.champion) && r.possible_champions@.len() == 0
    } else {
        &&& exists|i: int| first_best(s, i) && r.champion == s[i]
        &&& tied_with(s, r.champion).len() >= 2 ==> r.possible_champions@ == distinct_firsts(
            tied_with(s, r.champion),
        )
        &&& tied_with(s, r.champion).len() < 2 ==> r.possible_champions@.len() == 0
    }
}

/// At least two entries of `s`, at distinct positions, are tied with `ch`.
pub open spec fn has_two_tied(s: Seq<Player>, ch: Player) -> bool {
    exists|j: int, k: int|
        0 <= j < k < s.len() && tied(#[trigger] s[j], ch) && tied(#[trigger] s[k], ch)
}

proof fn lemma_tied_with_one(p: Player, ch: Player)
    ensures
        tied(p, ch) ==> tied_with(seq![p], ch) == seq![p],
        !tied(p, ch) ==> tied_with(seq![p], ch).len() == 0,
{
    let s = seq![p];
    assert(s.last() == p);
    assert(s.drop_last() =~= Seq::<Player>::empty());
    assert(tied_with(s.drop_last(), ch).len() == 0);
    if tied(p, ch) {
        assert(tied_with(s, ch) =~= seq![p]);
    }
}

proof fn lemma_distinct_one(p: Player)
    ensures
        distinct_firsts(seq![p]) == seq![p],
{
    let s = seq![p];
    assert(s.last() == p);
    assert(s.drop_last() =~= Seq::<Player>::empty());
    assert(!contains_player(s.drop_last(), p));
    assert(distinct_firsts(s.drop_last()).len() == 0);
    assert(distinct_firsts(s) =~= seq![p]);
}

proof fn lemma_tied_with_empty(s: Seq<Player>, ch: Player)
    requires
        forall|j: int| 0 <= j < s.len() ==> !tied(s[j], ch),
    ensures
        tied_with(s, ch).len() == 0,
    decreases s.len(),
{
    if s.len() > 0 {
        assert(!tied(s[s.len() - 1], ch));
        lemma_tied_with_empty(s.drop_last(), ch);
    }
}

proof fn lemma_tied_with_first(s: Seq<Player>, ch: Player, i: int)
    requires
        0 <= i < s.len(),
        tied(s[i], ch),
        forall|j: int| 0 <= j < i ==> !tied(s[j], ch),
    ensures
        tied_with(s, ch).len() >= 1,
        tied_with(s, ch)[0] == s[i],
    decreases s.len(),
{
    if i == s.len() - 1 {
        lemma_tied_with_empty(s.drop_last(), ch);
    } else {
        assert(s.drop_last()[i] == s[i]);
        lemma_tied_with_first(s.drop_last(), ch, i);
    }
}

proof fn lemma_tied_with_contains(s: Seq<Player>, ch: Player, k: int)
    requires
        0 <= k < s.len(),
        tied(s[k], ch),
    ensures
        tied_with(s, ch).len() >= 1,
        contains_player(tied_with(s, ch), s[k]),
    decreases s.len(),
{
    let t = tied_with(s, ch);
    if k == s.len() - 1 {
        assert(t[t.len() - 1] == s[k]);
        assert(same_player(t[t.len() - 1], s[k]));
        assert(contains_player(t, s[k]));
    } else {
        assert(s.drop_last()[k] == s[k]);
        lemma_tied_with_contains(s.drop_last(), ch, k);
        let t0 = tied_with(s.drop_last(), ch);
        let m = choose|m: int| 0 <= m < t0.len() && same_player(t0[m], s[k]);
        assert(t[m] == t0[m]);
        assert(contains_player(t, s[k]));
    }
}

proof fn lemma_tied_with_members(s: Seq<Player>, ch: Player, m: int)
    requires
        0 <= m < tied_with(s, ch).len(),
    ensures
        tied(tied_with(s, ch)[m], ch),
        exists|k: int| 0 <= k < s.len() && s[k] == tied_with(s, ch)[m],
    decreases s.len(),
{
    let t = tied_with(s, ch);
    let t0 = tied_with(s.drop_last(), ch);
    if tied(s.last(), ch) && m == t.len() - 1 {
        assert(s[s.len() - 1] == t[m]);
    } else {
        assert(t[m] == t0[m]);
        lemma_tied_with_members(s.drop_last(), ch, m);
        let k = choose|k: int| 0 <= k < s.drop_last().len() && s.drop_last()[k] == t0[m];
        assert(s[k] == t[m]);
    }
}

proof fn lemma_contains_split(s: Seq<Player>, p: Player)
    requires
        s.len() > 0,
    ensures
        contains_player(s, p) == (contains_player(s.drop_last(), p) || same_player(
            s.last(),
            p,
        )),
{
    if contains_player(s, p) {
        let k = choose|k: int| 0 <= k < s.len() && same_player(s[k], p);
        if k < s.len() - 1 {
            assert(s.drop_last()[k] == s[k]);
            assert(contains_player(s.drop_last(), p));
        }
    }
    if contains_player(s.drop_last(), p) {
        let k = choose|k: int| 0 <= k < s.drop_last().len() && same_player(s.drop_last()[k], p);
        assert(s[k] == s.drop_last()[k]);
        assert(contains_player(s, p));
    }
    if same_player(s.last(), p) {
        assert(same_player(s[s.len() - 1], p));
        assert(contains_player(s, p));
    }
}

proof fn lemma_distinct_contains(s: Seq<Player>, p: Player)
    ensures
        contains_player(distinct_firsts(s), p) == contains_player(s, p),
    decreases s.len(),
{
    if s.len() > 0 {
        lemma_distinct_contains(s.drop_last(), p);
        lemma_contains_split(s, p);
        if contains_player(s.drop_last(), s.last()) {
            // the last entry is a duplicate: dropping it loses no member
            if same_player(s.last(), p) {
                let w = choose|w: int|
                    0 <= w < s.drop_last().len() && same_player(s.drop_last()[w], s.last());
                assert(same_player(s.drop_last()[w], p));
                assert(contains_player(s.drop_last(), p));
            }
        } else {
            let d0 = distinct_firsts(s.drop_last());
            let d = distinct_firsts(s);
            if contains_player(d, p) {
                let k = choose|k: int| 0 <= k < d.len() && same_player(d[k], p);
                if k < d.len() - 1 {
                    assert(d[k] == d0[k]);
                    assert(contains_player(d0, p));
                }
            }
            if contains_player(d0, p) {
                let k = choose|k: int| 0 <= k < d0.len() && same_player(d0[k], p);
                assert(d[k] == d0[k]);
                assert(contains_player(d, p));
            }
            if same_player(s.last(), p) {
                assert(same_player(d[d.len() - 1], p));
                assert(contains_player(d, p));
            }
        }
    }
}

proof fn lemma_distinct_no_dups(s: Seq<Player>)
    ensures
        forall|m: int, k: int|
            0 <= m < k < distinct_firsts(s).len() ==> !same_player(
                #[trigger] distinct_firsts(s)[m],
                #[trigger] distinct_firsts(s)[k],
            ),
    decreases s.len(),
{
    if s.len() > 0 {
        lemma_distinct_no_dups(s.drop_last());
        let d0 = distinct_firsts(s.drop_last());
        let d = distinct_firsts(s);
        if !contains_player(s.drop_last(), s.last()) {
            assert forall|m: int, k: int| 0 <= m < k < d.len() implies !same_player(
                d[m],
                d[k],
            ) by {
                if k == d.len() - 1 {
                    assert(d[k] == s.last());
                    assert(d[m] == d0[m]);
                    if same_player(d0[m], s.last()) {
                        assert(contains_player(d0, s.last()));
                        lemma_distinct_contains(s.drop_last(), s.last());
                        assert(false);
                    }
                } else {
                    assert(d[m] == d0[m] && d[k] == d0[k]);
                }
            }
        }
    }
}

proof fn lemma_len1_implies_tied(s: Seq<Player>, ch: Player)
    requires
        tied_with(s, ch).len() >= 1,
    ensures
        exists|j: int| 0 <= j < s.len() && tied(#[trigger] s[j], ch),
    decreases s.len(),
{
    assert(s.len() > 0);
    if tied(s.last(), ch) {
        assert(tied(s[s.len() - 1], ch));
    } else {
        lemma_len1_implies_tied(s.drop_last(), ch);
        let j = choose|j: int| 0 <= j < s.drop_last().len() && tied(s.drop_last()[j], ch);
        assert(tied(s[j], ch));
    }
}

proof fn lemma_len2_implies_two_tied(s: Seq<Player>, ch: Player)
    requires
        tied_with(s, ch).len() >= 2,
    ensures
        has_two_tied(s, ch),
    decreases s.len(),
{
    assert(s.len() > 0);
    if tied(s.last(), ch) {
        lemma_len1_implies_tied(s.drop_last(), ch);
        let j = choose|j: int| 0 <= j < s.drop_last().len() && tied(s.drop_last()[j], ch);
        assert(tied(s[j], ch) && tied(s[s.len() - 1], ch));
    } else {
        lemma_len2_implies_two_tied(s.drop_last(), ch);
        let (j, k) = choose|j: int, k: int|
            0 <= j < k < s.drop_last().len() && tied(s.drop_last()[j], ch) && tied(
                s.drop_last()[k],
                ch,
            );
        assert(tied(s[j], ch) && tied(s[k], ch));
    }
}

proof fn lemma_two_tied_implies_len2(s: Seq<Player>, ch: Player)
    requires
        has_two_tied(s, ch),
    ensures
        tied_with(s, ch).len() >= 2,
    decreases s.len(),
{
    let (j, k) = choose|j: int, k: int|
        0 <= j < k < s.len() && tied(s[j], ch) && tied(s[k], ch);
    if k == s.len() - 1 {
        assert(s.drop_last()[j] == s[j]);
        lemma_tied_with_contains(s.drop_last(), ch, j);
        assert(tied(s.last(), ch));
    } else {
        assert(s.drop_last()[j] == s[j] && s.drop_last()[k] == s[k]);
        assert(has_two_tied(s.drop_last(), ch));
        lemma_two_tied_implies_len2(s.drop_last(), ch);
    }
}

proof fn lemma_dup_count(s: Seq<Player>, j: int, k: int)
    requires
        0 <= j < k < s.len(),
        s[j] == s[k],
    ensures
        s.to_multiset().count(s[j]) >= 2,
{
    broadcast use vstd::seq_lib::group_to_multiset_ensures;
    broadcast use vstd::multiset::group_multiset_axioms;

    let v = s[j];
    let rest = s.remove(j);
    assert(rest.to_multiset() =~= s.to_multiset().remove(v));
    assert(rest[k - 1] == s[k]);
    assert(rest.contains(v));
    assert(rest.to_multiset().count(v) > 0);
}

proof fn lemma_count_two(s: Seq<Player>, v: Player)
    requires
        s.to_multiset().count(v) >= 2,
    ensures
        exists|j: int, k: int| 0 <= j < k < s.len() && #[trigger] s[j] == v && #[trigger] s[k] == v,
{
    broadcast use vstd::seq_lib::group_to_multiset_ensures;
    broadcast use vstd::multiset::group_multiset_axioms;

    assert(s.contains(v));
    let j = choose|j: int| 0 <= j < s.len() && s[j] == v;
    let rest = s.remove(j);
    assert(rest.to_multiset() =~= s.to_multiset().remove(v));
    assert(rest.to_multiset().count(v) >= 1);
    assert(rest.contains(v));
    let m = choose|m: int| 0 <= m < rest.len() && rest[m] == v;
    if m < j {
        assert(s[m] == rest[m]);
        assert(s[m] == v && s[j] == v);
    } else {
        assert(s[m + 1] == rest[m]);
        assert(s[j] == v && s[m + 1] == v);
    }
}

/// Membership check by structural equality, as the tie list's deduplication
/// uses it.
fn contains_equal(list: &Vec<Player>, p: &Player) -> (r: bool)
    ensures
        r == contains_player(list@, *p),
{
    let n: usize = list.len();
    let mut i: usize = 0;
    while i < n
        invariant
            i <= n,
            n == list@.len(),
            forall|j: int| 0 <= j < i ==> !same_player(list@[j], *p),
        decreases n - i,
    {
        if list[i] == *p {
            proof {
                assert(same_player(list@[i as int], *p));
            }
            return true;
        }
        i = i + 1;
    }
    false
}

/// Fold the pool into its champion and the players tied with it.
///
/// The champion of a non-empty pool is its first undominated player; the
/// possible champions are exactly the players tied with the champion,
/// deduplicated, in order of first occurrence, and only when the pool holds
/// at least two tied entries. An empty pool yields the placeholder result.
pub fn get_pronostics(player_list: Vec<Player>) -> (result: Pronostics)
    ensures
        valid_pronostics(player_list@, result),
{
    let ghost s: Seq<Player> = player_list@;
    let mut pronostics = Pronostics::default();
    let n: usize = player_list.len();
    if n == 0 {
        return pronostics;
    }
    pronostics.champion = player_list[0].clone();
    proof {
        let sub = s.subrange(0, 1);
        assert(sub =~= seq![s[0]]);
        assert(first_best(sub, 0));
        lemma_tied_with_one(s[0], pronostics.champion);
        assert(tied_with(sub, pronostics.champion).len() == 1);
    }
    let mut idx: usize = 1;
    while idx < n
        invariant
            1 <= idx <= n,
            n == player_list.len(),
            s == player_list@,
            exists|i: int|
                first_best(s.subrange(0, idx as int), i) && pronostics.champion == s.subrange(
                    0,
                    idx as int,
                )[i],
            tied_with(s.subrange(0, idx as int), pronostics.champion).len() >= 2
                ==> pronostics.possible_champions@ == distinct_firsts(
                tied_with(s.subrange(0, idx as int), pronostics.champion),
            ),
            (tied_with(s.subrange(0, idx as int), pronostics.champion).len() < 2) == (
            pronostics.possible_champions@.len() == 0),
        decreases n - idx,
    {
        let ghost prefix = s.subrange(0, idx as int);
        let ghost prefix1 = s.subrange(0, idx as int + 1);
        let ghost c = s[idx as int];
        let ghost old_ch = pronostics.champion;
        let ghost i0 = choose|i: int| first_best(prefix, i) && old_ch == prefix[i];
        proof {
            assert(prefix1.drop_last() =~= prefix);
            assert(prefix1.last() == c);
            assert(first_best(prefix, i0) && old_ch == prefix[i0]);
        }
        let player = &player_list[idx];
        if are_equal_players(&pronostics.champion, player) {
            // the newcomer is tied with the champion: it joins the tie list
            let ghost t = tied_with(prefix, old_ch);
            let ghost t1 = tied_with(prefix1, old_ch);
            proof {
                assert(tied(c, old_ch));
                assert(t1 == t.push(c));
                // the champion keeps its place at the head of prefix1
                assert(first_best(prefix1, i0)) by {
                    assert(forall|j: int|
                        0 <= j < prefix1.len() ==> prefix1[j] == if j < idx as int {
                            prefix[j]
                        } else {
                            c
                        });
                }
            }
            if pronostics.possible_champions.len() == 0 {
                // first tie seen: the list starts with the champion itself
                proof {
                    assert(tied(prefix[i0], old_ch));
                    assert(forall|j: int| 0 <= j < i0 ==> !tied(prefix[j], old_ch));
                    lemma_tied_with_first(prefix, old_ch, i0);
                    assert(t.len() == 1);
                    assert(t =~= seq![old_ch]);
                }
                let ch = pronostics.champion.clone();
                pronostics.possible_champions.push(ch);
                proof {
                    lemma_distinct_one(old_ch);
                    assert(pronostics.possible_champions@ =~= seq![old_ch]);
                    assert(pronostics.possible_champions@ == distinct_firsts(t));
                }
            }
            proof {
                // at this point the tie list holds the first occurrences of
                // the champion's class within the prefix
                assert(pronostics.possible_champions@ == distinct_firsts(t));
                lemma_distinct_contains(t, c);
            }
            if !contains_equal(&pronostics.possible_champions, player) {
                pronostics.possible_champions.push(player.clone());
            }
            proof {
                assert(t1.drop_last() =~= t);
                assert(t1.last() == c);
                assert(distinct_firsts(t1) == if contains_player(t, c) {
                    distinct_firsts(t)
                } else {
                    distinct_firsts(t).push(c)
                });
                assert(t1.len() >= 2);
                assert(pronostics.possible_champions@ == distinct_firsts(t1));
                assert(pronostics.possible_champions@.len() > 0);
            }
        } else if is_stronger(player, &pronostics.champion) || (!is_stronger(
            &pronostics.champion,
            player,
        ) && is_younger(player, &pronostics.champion)) {
            // the newcomer strictly beats the champion and, with it, the
            // whole prefix: it becomes the sole champion
            pronostics.champion = player.clone();
            pronostics.possible_champions = Vec::new();
            proof {
                assert(beats(c, old_ch));
                assert(prefix1[idx as int] == c);
                assert(forall|j: int| 0 <= j < idx as int ==> prefix1[j] == prefix[j]);
                assert forall|j: int| 0 <= j < idx as int implies beats(c, prefix1[j]) by {
                    assert(!beats(prefix[j], prefix[i0]));
                }
                assert(first_best(prefix1, idx as int));
                assert forall|j: int| 0 <= j < prefix.len() implies !tied(prefix[j], c) by {
                    assert(!beats(prefix[j], prefix[i0]));
                }
                lemma_tied_with_empty(prefix, c);
                assert(tied_with(prefix1, c).len() == 1);
            }
        } else {
            // the newcomer is strictly worse: nothing changes
            proof {
                assert(!tied(old_ch, c) && !beats(c, old_ch));
                assert(forall|j: int| 0 <= j < idx as int ==> prefix1[j] == prefix[j]);
                assert(first_best(prefix1, i0));
                assert(!tied(c, old_ch));
                assert(tied_with(prefix1, old_ch) == tied_with(prefix, old_ch));
            }
        }
        idx = idx + 1;
    }
    proof {
        assert(s.subrange(0, n as int) =~= s);
    }
    pronostics
}

/// Law: the returned champion is never dominated. It is one of the input
/// players, and no input player is strictly stronger than it, nor of equal
/// ratio and younger.
pub proof fn lemma_champion_undominated(s: Seq<Player>, r: Pronostics)
    requires
        s.len() > 0,
        valid_pronostics(s, r),
    ensures
        exists|i: int| 0 <= i < s.len() && r.champion == #[trigger] s[i],
        forall|j: int| 0 <= j < s.len() ==> !beats(s[j], r.champion),
{
    let i = choose|i: int| first_best(s, i) && r.champion == s[i];
    assert(0 <= i < s.len() && r.champion == s[i]);
}

/// Law: aggregating a single-player pool yields that player as champion and
/// an empty tie list.
pub proof fn lemma_singleton(s: Seq<Player>, r: Pronostics)
    requires
        s.len() == 1,
        valid_pronostics(s, r),
    ensures
        r.champion == s[0],
        r.possible_champions@.len() == 0,
{
    let i = choose|i: int| first_best(s, i) && r.champion == s[i];
    assert(i == 0);
    assert(s =~= seq![s[0]]);
    lemma_tied_with_one(s[0], r.champion);
    assert(tied_with(s, r.champion).len() == 1);
}

/// Law: when no two entries of the pool are tied with the champion, the
/// champion is unique and the tie list is empty.
pub proof fn lemma_unique_champion(s: Seq<Player>, r: Pronostics)
    requires
        s.len() > 0,
        valid_pronostics(s, r),
        !has_two_tied(s, r.champion),
    ensures
        r.possible_champions@.len() == 0,
{
    if tied_with(s, r.champion).len() >= 2 {
        lemma_len2_implies_two_tied(s, r.champion);
    }
}

/// Law: when at least two entries of the pool are tied with the champion,
/// the tie list holds exactly the players tied with the champion — every
/// such input player and no other, without structural duplicates — the
/// champion itself is among them, and every member satisfies the tie
/// criterion against the champion (so the members are pairwise tied).
pub proof fn lemma_tie_set_exact(s: Seq<Player>, r: Pronostics)
    requires
        s.len() > 0,
        valid_pronostics(s, r),
        has_two_tied(s, r.champion),
    ensures
        forall|p: Player|
            contains_player(r.possible_champions@, p) == (contains_player(s, p) && tied(
                p,
                r.champion,
            )),
        forall|m: int, k: int|
            0 <= m < k < r.possible_champions@.len() ==> !same_player(
                r.possible_champions@[m],
                r.possible_champions@[k],
            ),
        contains_player(r.possible_champions@, r.champion),
        forall|m: int|
            0 <= m < r.possible_champions@.len() ==> tied(
                #[trigger] r.possible_champions@[m],
                r.champion,
            ),
{
    lemma_two_tied_implies_len2(s, r.champion);
    let ch = r.champion;
    let t = tied_with(s, ch);
    assert forall|m: int| 0 <= m < r.possible_champions@.len() implies tied(
        r.possible_champions@[m],
        ch,
    ) by {
        let d = distinct_firsts(t);
        assert(same_player(d[m], d[m]));
        assert(contains_player(d, d[m]));
        lemma_distinct_contains(t, d[m]);
        let w = choose|w: int| 0 <= w < t.len() && same_player(t[w], d[m]);
        lemma_tied_with_members(s, ch, w);
    }
    assert forall|p: Player|
        contains_player(r.possible_champions@, p) == (contains_player(s, p) && tied(p, ch)) by {
        lemma_distinct_contains(t, p);
        if contains_player(t, p) {
            let m = choose|m: int| 0 <= m < t.len() && same_player(t[m], p);
            lemma_tied_with_members(s, ch, m);
            let k = choose|k: int| 0 <= k < s.len() && s[k] == t[m];
            assert(same_player(s[k], p));
            assert(contains_player(s, p));
        }
        if contains_player(s, p) && tied(p, ch) {
            let k = choose|k: int| 0 <= k < s.len() && same_player(s[k], p);
            assert(tied(s[k], ch));
            lemma_tied_with_contains(s, ch, k);
            let m = choose|m: int| 0 <= m < t.len() && same_player(t[m], s[k]);
            assert(same_player(t[m], p));
            assert(contains_player(t, p));
        }
    }
    assert forall|m: int, k: int| 0 <= m < k < r.possible_champions@.len() implies !same_player(
        r.possible_champions@[m],
        r.possible_champions@[k],
    ) by {
        lemma_distinct_no_dups(t);
    }
    let i = choose|i: int| first_best(s, i) && r.champion == s[i];
    assert(same_player(s[i], ch));
    assert(contains_player(s, ch));
}

/// Law: the result does not depend on the order of the pool. Two pools that
/// hold the same players with the same multiplicities yield champions of
/// equal ratio and age (the name kept is that of the first top player seen,
/// so only the ranking keys are order-free), and tie lists with exactly the
/// same members.
pub proof fn lemma_order_independent(s1: Seq<Player>, s2: Seq<Player>, r1: Pronostics, r2: Pronostics)
    requires
        s1.to_multiset() == s2.to_multiset(),
        valid_pronostics(s1, r1),
        valid_pronostics(s2, r2),
    ensures
        s1.len() == 0 ==> same_player(r1.champion, r2.champion),
        s1.len() > 0 ==> tied(r1.champion, r2.champion),
        s1.len() > 0 && (forall|j: int, k: int|
            0 <= j < s1.len() && 0 <= k < s1.len() && tied(#[trigger] s1[j], r1.champion) && tied(
                #[trigger] s1[k],
                r1.champion,
            ) ==> s1[j].name@ == s1[k].name@) ==> same_player(r1.champion, r2.champion),
        forall|p: Player|
            contains_player(r1.possible_champions@, p) == contains_player(
                r2.possible_champions@,
                p,
            ),
{
    lemma_ms_len_eq(s1, s2);
    if s1.len() == 0 {
        assert(r1.possible_champions@.len() == 0 && r2.possible_champions@.len() == 0);
    } else {
        let ch1 = r1.champion;
        let ch2 = r2.champion;
        let i1 = choose|i: int| first_best(s1, i) && ch1 == s1[i];
        let i2 = choose|i: int| first_best(s2, i) && ch2 == s2[i];
        // each champion occurs in the other pool, where it is undominated
        assert(s2.contains(s2[i2]));
        lemma_ms_contains_transfer(s2, s1, s2[i2]);
        let k1 = choose|k: int| 0 <= k < s1.len() && s1[k] == s2[i2];
        assert(!beats(s1[k1], s1[i1]));
        assert(s1.contains(s1[i1]));
        lemma_ms_contains_transfer(s1, s2, s1[i1]);
        let k2 = choose|k: int| 0 <= k < s2.len() && s2[k] == s1[i1];
        assert(!beats(s2[k2], s2[i2]));
        assert(tied(ch1, ch2));
        // when every top-tier entry of the one pool carries the same name,
        // the champions agree structurally, not only on the ranking keys
        if forall|j: int, k: int|
            0 <= j < s1.len() && 0 <= k < s1.len() && tied(#[trigger] s1[j], ch1) && tied(
                #[trigger] s1[k],
                ch1,
            ) ==> s1[j].name@ == s1[k].name@ {
            assert(tied(s1[i1], ch1));
            assert(tied(s1[k1], ch1));
            assert(s1[i1].name@ == s1[k1].name@);
            assert(same_player(ch1, ch2));
        }
        // at least two tied entries in the one pool iff in the other
        assert(has_two_tied(s1, ch1) == has_two_tied(s2, ch2)) by {
            if has_two_tied(s1, ch1) {
                lemma_two_tied_transfer(s1, s2, ch1, ch2);
            }
            if has_two_tied(s2, ch2) {
                lemma_two_tied_transfer(s2, s1, ch2, ch1);
            }
        }
        if tied_with(s1, ch1).len() >= 2 {
            lemma_len2_implies_two_tied(s1, ch1);
            lemma_two_tied_implies_len2(s2, ch2);
            lemma_tie_set_exact(s1, r1);
            lemma_tie_set_exact(s2, r2);
            assert forall|p: Player|
                contains_player(r1.possible_champions@, p) == contains_player(
                    r2.possible_champions@,
                    p,
                ) by {
                if contains_player(s1, p) {
                    let k = choose|k: int| 0 <= k < s1.len() && same_player(s1[k], p);
                    assert(s1.contains(s1[k]));
                    lemma_ms_contains_transfer(s1, s2, s1[k]);
                    let m = choose|m: int| 0 <= m < s2.len() && s2[m] == s1[k];
                    assert(same_player(s2[m], p));
                    assert(contains_player(s2, p));
                }
                if contains_player(s2, p) {
                    let k = choose|k: int| 0 <= k < s2.len() && same_player(s2[k], p);
                    assert(s2.contains(s2[k]));
                    lemma_ms_contains_transfer(s2, s1, s2[k]);
                    let m = choose|m: int| 0 <= m < s1.len() && s1[m] == s2[k];
                    assert(same_player(s1[m], p));
                    assert(contains_player(s1, p));
                }
            }
        } else {
            if tied_with(s2, ch2).len() >= 2 {
                lemma_len2_implies_two_tied(s2, ch2);
                lemma_two_tied_implies_len2(s1, ch1);
            }
            assert(r1.possible_champions@.len() == 0 && r2.possible_champions@.len() == 0);
        }
    }
}

proof fn lemma_ms_len_eq(sa: Seq<Player>, sb: Seq<Player>)
    requires
        sa.to_multiset() == sb.to_multiset(),
    ensures
        sa.len() == sb.len(),
{
    broadcast use vstd::seq_lib::group_to_multiset_ensures;

    assert(sa.to_multiset().len() == sa.len());
    assert(sb.to_multiset().len() == sb.len());
}

proof fn lemma_ms_contains_transfer(sa: Seq<Player>, sb: Seq<Player>, v: Player)
    requires
        sa.to_multiset() == sb.to_multiset(),
        sa.contains(v),
    ensures
        sb.contains(v),
{
    broadcast use vstd::seq_lib::group_to_multiset_ensures;

    assert(sa.to_multiset().count(v) > 0);
    assert(sb.to_multiset().count(v) > 0);
}

proof fn lemma_two_tied_transfer(sa: Seq<Player>, sb: Seq<Player>, cha: Player, chb: Player)
    requires
        sa.to_multiset() == sb.to_multiset(),
        tied(cha, chb),
        has_two_tied(sa, cha),
    ensures
        has_two_tied(sb, chb),
{
    broadcast use vstd::seq_lib::group_to_multiset_ensures;

    let (j, k) = choose|j: int, k: int|
        0 <= j < k < sa.len() && tied(sa[j], cha) && tied(sa[k], cha);
    if sa[j] == sa[k] {
        lemma_dup_count(sa, j, k);
        lemma_count_two(sb, sa[j]);
        let (m, l) = choose|m: int, l: int|
            0 <= m < l < sb.len() && #[trigger] sb[m] == sa[j] && #[trigger] sb[l] == sa[j];
        assert(tied(sb[m], chb) && tied(sb[l], chb));
    } else {
        assert(sa.contains(sa[j]));
        lemma_ms_contains_transfer(sa, sb, sa[j]);
        assert(sa.contains(sa[k]));
        lemma_ms_contains_transfer(sa, sb, sa[k]);
        let m = choose|m: int| 0 <= m < sb.len() && sb[m] == sa[j];
        let l = choose|l: int| 0 <= l < sb.len() && sb[l] == sa[k];
        assert(m != l);
        assert(tied(sb[m], chb) && tied(sb[l], chb));
        // the two occurrences stand in one position order or the other
        if m < l {
            assert(has_two_tied(sb, chb));
        } else {
            assert(has_two_tied(sb, chb));
        }
    }
}

} // verus!
