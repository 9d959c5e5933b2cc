//! The roster: a fixed row of slots, each holding a friend or nothing.

use crate::dice::{
    count_marked, draw_distinct, draw_marked, lemma_all_empty, lemma_count_marked_step,
    lemma_draw_distinct, occupancy, occupied, pick_marked, pick_one, Dice,
};
use crate::order::{is_sorted, lemma_sorted_slots_members, slot_le, sorted_slots};
use crate::friend::Friend;
use crate::params::TEAM_SIZE;
use vstd::prelude::*;

verus! {

/// The first empty position of `s` at or after `j`; the length of `s` when
/// there is none.
pub open spec fn first_gap_from(s: Seq<Option<Friend>>, j: int) -> int
    decreases s.len() - j,
{
    if j < 0 || j >= s.len() {
        s.len() as int
    } else if s[j] is None {
        j
    } else {
        first_gap_from(s, j + 1)
    }
}

/// The last empty position of `s` before `j`; -1 when there is none.
pub open spec fn last_gap_before(s: Seq<Option<Friend>>, j: int) -> int
    decreases j,
{
    if j <= 0 || j > s.len() {
        -1
    } else if s[j - 1] is None {
        j - 1
    } else {
        last_gap_before(s, j - 1)
    }
}

/// The empty position that is given up to free position `j`: the first one
/// at or after `j`, else the last one before it, else none.
pub open spec fn gap_for(s: Seq<Option<Friend>>, j: int) -> Option<int> {
    if first_gap_from(s, j) < s.len() {
        Some(first_gap_from(s, j))
    } else if last_gap_before(s, j) >= 0 {
        Some(last_gap_before(s, j))
    } else {
        None
    }
}

/// The row with position `j` freed: the friends between `j` and the gap
/// given up move one position towards the gap, in order; nobody else moves.
/// A full row stays as it is.
pub open spec fn with_room_at(s: Seq<Option<Friend>>, j: int) -> Seq<Option<Friend>> {
    match gap_for(s, j) {
        Some(k) => s.remove(k).insert(j, None),
        None => s,
    }
}

/// Whether both slots hold a friend, and the two are of one species.
pub open spec fn same_species(a: Option<Friend>, b: Option<Friend>) -> bool {
    a is Some && b is Some && a->0.species == b->0.species
}

/// Which slots of `team`, but for slot `except`, hold a friend of the
/// species of `f`.
pub open spec fn partner_row(team: Seq<Option<Friend>>, f: Option<Friend>, except: int) -> Seq<
    bool,
> {
    Seq::new(team.len(), |j: int| j != except && same_species(f, team[j]))
}

/// For each slot of `team`, which other slots hold a friend of the same
/// species. No slot is its own partner.
pub open spec fn team_table(team: Seq<Option<Friend>>) -> Seq<Seq<bool>> {
    Seq::new(team.len(), |i: int| partner_row(team, team[i], i))
}

/// For each offer of `friends`, which slots of `team` hold a friend of the
/// same species.
pub open spec fn offer_table(friends: Seq<Option<Friend>>, team: Seq<Option<Friend>>) -> Seq<
    Seq<bool>,
> {
    Seq::new(friends.len(), |i: int| partner_row(team, friends[i], team.len() as int))
}

/// The row with `dh` health and `da` attack added to the friend at `i`, if
/// there is one.
pub open spec fn buff_slot(s: Seq<Option<Friend>>, i: int, dh: nat, da: nat) -> Seq<
    Option<Friend>,
> {
    if 0 <= i < s.len() && s[i] is Some {
        s.update(i, Some(s[i]->0.buffed(dh, da)))
    } else {
        s
    }
}

/// The row with `dh` health and `da` attack added at each of `targets` in
/// turn.
pub open spec fn buff_each(s: Seq<Option<Friend>>, targets: Seq<usize>, dh: nat, da: nat) -> Seq<
    Option<Friend>,
>
    decreases targets.len(),
{
    if targets.len() == 0 {
        s
    } else {
        buff_slot(buff_each(s, targets.drop_last(), dh, da), targets.last() as int, dh, da)
    }
}

/// The row with `dh` health added to every friend in it.
pub open spec fn buff_all(s: Seq<Option<Friend>>, dh: nat) -> Seq<Option<Friend>> {
    Seq::new(
        s.len(),
        |i: int|
            match s[i] {
                Some(f) => Some(f.buffed(dh, 0)),
                None => None,
            },
    )
}

/// Whether every friend in `s` has health, attack and experience at most
/// `cap`.
pub open spec fn row_bounded_by(s: Seq<Option<Friend>>, cap: int) -> bool {
    forall|i: int| 0 <= i < s.len() && (#[trigger] s[i]) is Some ==> s[i]->0.bounded_by(cap)
}

/// Whether every friend in `s` can take `dh` more health and `da` more
/// attack within the machine's integers.
pub open spec fn row_can_grow(s: Seq<Option<Friend>>, dh: nat, da: nat) -> bool {
    forall|i: int|
        0 <= i < s.len() && (#[trigger] s[i]) is Some ==> s[i]->0.health + dh <= usize::MAX
            && s[i]->0.attack + da <= usize::MAX
}

/// Buffing keeps the length of the row, and touches only the targets.
pub proof fn lemma_buff_each(s: Seq<Option<Friend>>, targets: Seq<usize>, dh: nat, da: nat)
    ensures
        buff_each(s, targets, dh, da).len() == s.len(),
        forall|i: int|
            0 <= i < s.len() ==> ((#[trigger] buff_each(s, targets, dh, da)[i]) is Some <==> s[i] is Some),
        forall|i: int|
            0 <= i < s.len() && !targets.contains(i as usize) ==> (#[trigger] buff_each(
                s,
                targets,
                dh,
                da,
            )[i]) == s[i],
    decreases targets.len(),
{
    if targets.len() > 0 {
        let front = targets.drop_last();
        lemma_buff_each(s, front, dh, da);
        assert forall|i: int| 0 <= i < s.len() && !targets.contains(i as usize) implies (
        #[trigger] buff_each(s, targets, dh, da)[i]) == s[i] by {
            if front.contains(i as usize) {
                let k = choose|k: int| 0 <= k < front.len() && front[k] == i as usize;
                assert(targets[k] == i as usize);
            }
            assert(targets[targets.len() - 1] == targets.last());
        }
    }
}

/// Freeing a position neither adds a friend nor loses one, and keeps
/// every bound on the friends.
pub proof fn lemma_with_room_at(s: Seq<Option<Friend>>, j: int)
    requires
        0 <= j < s.len(),
    ensures
        with_room_at(s, j).len() == s.len(),
        gap_for(s, j) is Some ==> with_room_at(s, j)[j] is None,
        gap_for(s, j) matches Some(k) ==> 0 <= k < s.len() && s[k] is None,
        forall|cap: int| row_bounded_by(s, cap) ==> #[trigger] row_bounded_by(with_room_at(s, j), cap),
{
    lemma_first_gap(s, j);
    lemma_last_gap(s, j);
    match gap_for(s, j) {
        Some(k) => {
            let r = s.remove(k).insert(j, None);
            assert forall|cap: int| row_bounded_by(s, cap) implies #[trigger] row_bounded_by(
                r,
                cap,
            ) by {
                assert forall|i: int| 0 <= i < r.len() && (#[trigger] r[i]) is Some implies r[i]->0.bounded_by(
                    cap,
                ) by {
                    if i < j {
                        if i < k {
                            assert(r[i] == s[i]);
                        } else {
                            assert(r[i] == s[i + 1]);
                        }
                    } else if i > j {
                        if i - 1 < k {
                            assert(r[i] == s[i - 1]);
                        } else {
                            assert(r[i] == s[i]);
                        }
                    }
                }
            }
        },
        None => {},
    }
}

/// What `first_gap_from` finds is an empty position at or after `j`.
pub proof fn lemma_first_gap(s: Seq<Option<Friend>>, j: int)
    requires
        0 <= j <= s.len(),
    ensures
        j <= first_gap_from(s, j) <= s.len(),
        first_gap_from(s, j) < s.len() ==> s[first_gap_from(s, j)] is None,
        first_gap_from(s, j) == s.len() ==> forall|x: int| j <= x < s.len() ==> s[x] is Some,
    decreases s.len() - j,
{
    if j < s.len() && s[j] is Some {
        lemma_first_gap(s, j + 1);
    }
}

/// What `last_gap_before` finds is an empty position before `j`.
pub proof fn lemma_last_gap(s: Seq<Option<Friend>>, j: int)
    requires
        0 <= j <= s.len(),
    ensures
        -1 <= last_gap_before(s, j) < j,
        last_gap_before(s, j) >= 0 ==> s[last_gap_before(s, j)] is None,
        last_gap_before(s, j) == -1 ==> forall|x: int| 0 <= x < j ==> s[x] is Some,
    decreases j,
{
    if j > 0 && s[j - 1] is Some {
        lemma_last_gap(s, j - 1);
    }
}

/// The roster of a shop.
#[derive(Clone, Copy, Debug, PartialEq, Eq, Hash)]
pub struct Team {
    pub slots: [Option<Friend>; TEAM_SIZE],
}

impl View for Team {
    type V = Seq<Option<Friend>>;

    open spec fn view(&self) -> Seq<Option<Friend>> {
        self.slots@
    }
}

impl Team {
    /// An empty team.
    pub fn new() -> (t: Team)
        ensures
            t@.len() == TEAM_SIZE,
            forall|i: int| 0 <= i < TEAM_SIZE ==> t@[i] is None,
            occupied(t@) == 0,
    {
        let t = Team { slots: [None; TEAM_SIZE] };
        proof {
            lemma_all_empty(t@, TEAM_SIZE as int);
            assert(occupancy(t@).take(TEAM_SIZE as int) =~= occupancy(t@));
        }
        t
    }

    /// What slot `i` holds.
    pub fn get(&self, i: usize) -> (f: Option<Friend>)
        requires
            i < TEAM_SIZE,
        ensures
            f == self@[i as int],
    {
        self.slots[i]
    }

    /// Puts `f` into slot `i`, whatever was there.
    pub fn set(&mut self, i: usize, f: Option<Friend>)
        requires
            i < TEAM_SIZE,
        ensures
            final(self)@ == old(self)@.update(i as int, f),
    {
        self.slots[i] = f;
        proof {
            assert(self@ =~= old(self)@.update(i as int, f));
        }
    }

    /// Empties slot `i` and hands out what it held.
    pub fn take(&mut self, i: usize) -> (f: Option<Friend>)
        requires
            i < TEAM_SIZE,
        ensures
            f == old(self)@[i as int],
            final(self)@ == old(self)@.update(i as int, None),
    {
        let f: Option<Friend> = self.slots[i];
        self.set(i, None);
        f
    }

    /// Puts `friend` into the empty slot `pos`.
    pub fn summon(&mut self, friend: Friend, pos: usize)
        requires
            pos < TEAM_SIZE,
            old(self)@[pos as int] is None,
        ensures
            final(self)@ == old(self)@.update(pos as int, Some(friend)),
    {
        self.set(pos, Some(friend));
    }

    /// How many slots hold a friend.
    pub fn count(&self) -> (c: usize)
        ensures
            c == occupied(self@),
            c <= TEAM_SIZE,
    {
        let mut c: usize = 0;
        let mut i: usize = 0;
        let ghost marks = occupancy(self@);
        while i < TEAM_SIZE
            invariant
                i <= TEAM_SIZE,
                marks == occupancy(self@),
                c == count_marked(marks.take(i as int)),
                c <= i,
            decreases TEAM_SIZE - i,
        {
            proof {
                lemma_count_marked_step(marks, i as int);
            }
            if self.slots[i].is_some() {
                c = c + 1;
            }
            i = i + 1;
        }
        proof {
            assert(marks.take(i as int) =~= marks);
        }
        c
    }

    /// Frees slot `j` if any slot is empty: the friends between `j` and the
    /// nearest empty slot (looking towards the end first) move up by one.
    /// Answers whether slot `j` is free now; a full team is left untouched.
    pub fn make_space_at(&mut self, j: usize) -> (done: bool)
        requires
            j < TEAM_SIZE,
        ensures
            final(self)@ == with_room_at(old(self)@, j as int),
            done == (gap_for(old(self)@, j as int) is Some),
            done <==> exists|k: int| 0 <= k < TEAM_SIZE && old(self)@[k] is None,
            done ==> final(self)@[j as int] is None,
            !done ==> final(self)@ == old(self)@,
    {
        let ghost s = self@;
        let mut k: usize = j;
        while k < TEAM_SIZE && self.slots[k].is_some()
            invariant
                j <= k <= TEAM_SIZE,
                self@ == s,
                s.len() == TEAM_SIZE,
                first_gap_from(s, j as int) == first_gap_from(s, k as int),
                forall|x: int| j <= x < k ==> s[x] is Some,
            decreases TEAM_SIZE - k,
        {
            k = k + 1;
        }
        if k < TEAM_SIZE {
            let mut x: usize = k;
            while x > j
                invariant
                    j <= x <= k < TEAM_SIZE,
                    s.len() == TEAM_SIZE,
                    self@.len() == TEAM_SIZE,
                    forall|y: int| 0 <= y <= x ==> self@[y] == s[y],
                    forall|y: int| x < y <= k ==> self@[y] == s[y - 1],
                    forall|y: int| k < y < TEAM_SIZE ==> self@[y] == s[y],
                decreases x,
            {
                self.slots[x] = self.slots[x - 1];
                x = x - 1;
            }
            self.slots[j] = None;
            proof {
                assert(self@ =~= s.remove(k as int).insert(j as int, None));
            }
            return true;
        }
        let mut b: usize = j;
        while b > 0 && self.slots[b - 1].is_some()
            invariant
                b <= j < TEAM_SIZE,
                self@ == s,
                s.len() == TEAM_SIZE,
                first_gap_from(s, j as int) == TEAM_SIZE,
                last_gap_before(s, j as int) == last_gap_before(s, b as int),
                forall|x: int| b <= x < TEAM_SIZE ==> s[x] is Some,
            decreases b,
        {
            b = b - 1;
        }
        if b == 0 {
            return false;
        }
        let g: usize = b - 1;
        let mut x: usize = g;
        while x < j
            invariant
                g <= x <= j < TEAM_SIZE,
                s.len() == TEAM_SIZE,
                self@.len() == TEAM_SIZE,
                forall|y: int| 0 <= y < g ==> self@[y] == s[y],
                forall|y: int| g <= y < x ==> self@[y] == s[y + 1],
                forall|y: int| x <= y < TEAM_SIZE && y != g ==> self@[y] == s[y],
            decreases j - x,
        {
            self.slots[x] = self.slots[x + 1];
            x = x + 1;
        }
        self.slots[j] = None;
        proof {
            assert(self@ =~= s.remove(g as int).insert(j as int, None));
        }
        true
    }

    /// Adds `dh` health and `da` attack to the friend in each of the slots
    /// `picks`.
    pub fn buff_picked(&mut self, picks: &Vec<usize>, dh: usize, da: usize)
        requires
            row_can_grow(old(self)@, dh as nat, da as nat),
            forall|a: int| 0 <= a < picks@.len() ==> picks@[a] < TEAM_SIZE,
            forall|a: int, b: int| 0 <= a < b < picks@.len() ==> picks@[a] != picks@[b],
        ensures
            final(self)@ == buff_each(old(self)@, picks@, dh as nat, da as nat),
    {
        let ghost s = self@;
        let mut n: usize = 0;
        while n < picks.len()
            invariant
                n <= picks@.len(),
                s.len() == TEAM_SIZE,
                row_can_grow(s, dh as nat, da as nat),
                forall|a: int| 0 <= a < picks@.len() ==> picks@[a] < TEAM_SIZE,
                forall|a: int, b: int| 0 <= a < b < picks@.len() ==> picks@[a] != picks@[b],
                self@ == buff_each(s, picks@.take(n as int), dh as nat, da as nat),
            decreases picks@.len() - n,
        {
            let i: usize = picks[n];
            proof {
                let front = picks@.take(n as int);
                lemma_buff_each(s, front, dh as nat, da as nat);
                if front.contains(i) {
                    let k = choose|k: int| 0 <= k < front.len() && front[k] == i;
                    assert(picks@[k] == picks@[n as int]);
                }
                assert(self@[i as int] == s[i as int]);
                assert(picks@.take(n + 1).drop_last() =~= front);
            }
            match self.slots[i] {
                Some(f) => {
                    self.set(i, Some(f.buff(dh, da)));
                },
                None => {},
            }
            n = n + 1;
        }
        proof {
            assert(picks@.take(n as int) =~= picks@);
        }
    }

    /// Which slots, but for slot `except`, hold a friend of the species of
    /// `f`. With `except` at `TEAM_SIZE` no slot is left out.
    pub fn partners_of(&self, f: &Option<Friend>, except: usize) -> (row: [bool; TEAM_SIZE])
        ensures
            row@ == partner_row(self@, *f, except as int),
    {
        let mut row: [bool; TEAM_SIZE] = [false; TEAM_SIZE];
        let mut j: usize = 0;
        while j < TEAM_SIZE
            invariant
                j <= TEAM_SIZE,
                forall|x: int| 0 <= x < j ==> row@[x] == (x != except && same_species(*f, self@[x])),
            decreases TEAM_SIZE - j,
        {
            let alike: bool = match (f, self.slots[j]) {
                (Some(a), Some(b)) => a.species == b.species,
                _ => false,
            };
            row[j] = j != except && alike;
            j = j + 1;
        }
        proof {
            assert(row@ =~= partner_row(self@, *f, except as int));
        }
        row
    }

    /// For each slot, which other slots hold a friend of the same species.
    pub fn pairings(&self) -> (table: [[bool; TEAM_SIZE]; TEAM_SIZE])
        ensures
            crate::dice::rows_of(table) == team_table(self@),
    {
        let mut table: [[bool; TEAM_SIZE]; TEAM_SIZE] = [[false; TEAM_SIZE]; TEAM_SIZE];
        let mut i: usize = 0;
        while i < TEAM_SIZE
            invariant
                i <= TEAM_SIZE,
                forall|x: int| 0 <= x < i ==> table@[x]@ == partner_row(self@, self@[x], x),
            decreases TEAM_SIZE - i,
        {
            let row: [bool; TEAM_SIZE] = self.partners_of(&self.slots[i], i);
            table[i] = row;
            i = i + 1;
        }
        proof {
            assert(crate::dice::rows_of(table) =~= team_table(self@));
        }
        table
    }

    /// Picks one of the friends, none when the team is empty.
    pub fn random_friend<R: Dice>(&self, rng: &mut R) -> (r: Option<usize>)
        ensures
            (r, *final(rng)) == draw_marked(occupancy(self@), *old(rng)),
            r is None <==> occupied(self@) == 0,
            r matches Some(i) ==> i < TEAM_SIZE && self@[i as int] is Some,
    {
        pick_one(rng, self.slots.as_slice())
    }

    /// Picks `k` different friends, or all of them when there are fewer.
    pub fn random_friends<R: Dice>(&self, k: usize, rng: &mut R) -> (picks: Vec<usize>)
        ensures
            (picks@, *final(rng)) == draw_distinct(occupancy(self@), k as nat, *old(rng)),
            picks@.len() <= k,
            forall|a: int| 0 <= a < picks@.len() ==> picks@[a] < TEAM_SIZE && self@[picks@[a] as int] is Some,
            forall|a: int, b: int| 0 <= a < b < picks@.len() ==> picks@[a] != picks@[b],
    {
        let mut marks: [bool; TEAM_SIZE] = [false; TEAM_SIZE];
        let mut i: usize = 0;
        while i < TEAM_SIZE
            invariant
                i <= TEAM_SIZE,
                forall|x: int| 0 <= x < i ==> marks@[x] == (self@[x] is Some),
            decreases TEAM_SIZE - i,
        {
            marks[i] = self.slots[i].is_some();
            i = i + 1;
        }
        proof {
            assert(marks@ =~= occupancy(self@));
        }
        let ghost m0 = marks@;
        let ghost d0 = *rng;
        let mut picks: Vec<usize> = Vec::new();
        let mut n: usize = 0;
        while n < k
            invariant
                n <= k,
                m0 == occupancy(self@),
                d0 == *old(rng),
                marks@.len() == TEAM_SIZE,
                draw_distinct(m0, k as nat, d0) == (
                    picks@ + draw_distinct(marks@, (k - n) as nat, *rng).0,
                    draw_distinct(marks@, (k - n) as nat, *rng).1,
                ),
            decreases k - n,
        {
            let ghost before = *rng;
            let ghost m = marks@;
            let ghost done = picks@;
            match pick_marked(rng, marks.as_slice()) {
                None => {
                    proof {
                        assert(done + Seq::<usize>::empty() =~= done);
                        assert(draw_distinct(m, 0, *rng).0 =~= Seq::<usize>::empty());
                    }
                    n = k;
                },
                Some(i) => {
                    marks[i] = false;
                    picks.push(i);
                    n = n + 1;
                    proof {
                        let rest = draw_distinct(marks@, (k - n) as nat, *rng).0;
                        assert(marks@ =~= m.update(i as int, false));
                        assert(done + (seq![i] + rest) =~= done.push(i) + rest);
                    }
                },
            }
        }
        proof {
            assert(picks@ + Seq::<usize>::empty() =~= picks@);
            lemma_draw_distinct(m0, k as nat, d0);
        }
        picks
    }
}

/// Sorting a row of friends keeps every bound on them.
pub proof fn lemma_sorted_row_bounded(s: Seq<Option<Friend>>, cap: int)
    requires
        row_bounded_by(s, cap),
    ensures
        row_bounded_by(sorted_slots(s), cap),
{
    lemma_sorted_slots_members(s);
    let r = sorted_slots(s);
    assert forall|i: int| 0 <= i < r.len() && (#[trigger] r[i]) is Some implies r[i]->0.bounded_by(
        cap,
    ) by {
        assert(s.contains(r[i]));
        let k = choose|k: int| 0 <= k < s.len() && s[k] == r[i];
        assert(s[k] is Some);
    }
}

/// Giving every friend of a sorted row the same health leaves it sorted.
pub proof fn lemma_buff_all_sorted(s: Seq<Option<Friend>>, dh: nat)
    requires
        is_sorted(s),
        row_can_grow(s, dh, 0),
    ensures
        is_sorted(buff_all(s, dh)),
{
    let b = buff_all(s, dh);
    assert forall|i: int, j: int| 0 <= i <= j < b.len() implies slot_le(
        #[trigger] b[i],
        #[trigger] b[j],
    ) by {
        assert(slot_le(s[i], s[j]));
    }
}

/// Whether every friend in `slots` has health, attack and experience at
/// most `cap`.
pub fn row_within(slots: &[Option<Friend>], cap: usize) -> (b: bool)
    ensures
        b == row_bounded_by(slots@, cap as int),
{
    let mut i: usize = 0;
    while i < slots.len()
        invariant
            i <= slots.len(),
            forall|x: int| 0 <= x < i && (#[trigger] slots@[x]) is Some ==> slots@[x]->0.bounded_by(cap as int),
        decreases slots.len() - i,
    {
        match slots[i] {
            Some(f) => {
                if f.health > cap || f.attack > cap || f.exp > cap {
                    return false;
                }
            },
            None => {},
        }
        i = i + 1;
    }
    true
}

} // verus!
