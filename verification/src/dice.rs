//! The source of randomness, and uniform picks among marked positions.

use vstd::prelude::*;

verus! {

/// A source of rolls.
///
/// A dice is a generator with a state: what a roll shows and the state it
/// leaves behind are functions of the state before the roll and of the bound
/// asked for. A seeded generator is such a function of its seed, so a run
/// that starts from the same state and asks for the same bounds sees the same
/// rolls. That the rolls are evenly spread over `0..n` is the implementor's
/// business; no contract here speaks of probabilities.
pub trait Dice: Sized {
    /// The number that the next roll below `n` shows.
    spec fn face(&self, n: nat) -> nat;

    /// The dice after a roll below `n`.
    spec fn spent(&self, n: nat) -> Self;

    /// Every face lies below the bound it was asked under.
    proof fn lemma_face_below(&self, n: nat)
        requires
            n > 0,
        ensures
            self.face(n) < n,
    ;

    /// Rolls a number in `0..n`. An empty range is never asked for.
    fn roll(&mut self, n: usize) -> (r: usize)
        requires
            n > 0,
        ensures
            r < n,
            r == old(self).face(n as nat),
            *final(self) == old(self).spent(n as nat),
    ;
}

/// A dice that replays a prepared list of numbers, each reduced modulo the
/// bound of the roll that consumes it. Once the list is used up every roll
/// shows 0.
pub struct Tape {
    pub values: Vec<usize>,
    pub next: usize,
}

impl Tape {
    /// The numbers not yet consumed.
    pub open spec fn remaining(&self) -> Seq<usize> {
        if self.next <= self.values@.len() {
            self.values@.skip(self.next as int)
        } else {
            Seq::empty()
        }
    }

    /// A tape that will replay `values` from the start.
    pub fn new(values: Vec<usize>) -> (t: Tape)
        ensures
            t.values == values,
            t.next == 0,
            t.remaining() == values@,
    {
        Tape { values, next: 0 }
    }

    /// How many numbers are left.
    pub fn left(&self) -> (n: usize)
        ensures
            n == self.remaining().len(),
    {
        if self.next <= self.values.len() {
            self.values.len() - self.next
        } else {
            0
        }
    }
}

impl Dice for Tape {
    open spec fn face(&self, n: nat) -> nat {
        if self.next < self.values@.len() && n > 0 {
            (self.values@[self.next as int] as nat) % n
        } else {
            0
        }
    }

    open spec fn spent(&self, n: nat) -> Tape {
        if self.next < self.values@.len() {
            Tape { values: self.values, next: (self.next + 1) as usize }
        } else {
            *self
        }
    }

    proof fn lemma_face_below(&self, n: nat) {
    }

    fn roll(&mut self, n: usize) -> (r: usize) {
        if self.next < self.values.len() {
            let r: usize = self.values[self.next] % n;
            self.next = self.next + 1;
            r
        } else {
            0
        }
    }
}

/// The number of marked positions of `m`.
pub open spec fn count_marked(m: Seq<bool>) -> nat
    decreases m.len(),
{
    if m.len() == 0 {
        0
    } else {
        count_marked(m.drop_last()) + if m.last() { 1nat } else { 0nat }
    }
}

/// The position of the marked entry that has exactly `k` marked entries
/// before it. Meaningful for `k < count_marked(m)`.
pub open spec fn nth_marked(m: Seq<bool>, k: nat) -> int
    decreases m.len(),
{
    if m.len() == 0 {
        0
    } else if m.last() && count_marked(m.drop_last()) == k {
        m.len() - 1
    } else {
        nth_marked(m.drop_last(), k)
    }
}

/// Which positions of `s` hold something.
pub open spec fn occupancy<T>(s: Seq<Option<T>>) -> Seq<bool> {
    Seq::new(s.len(), |i: int| s[i] is Some)
}

/// The number of occupied positions of `s`.
pub open spec fn occupied<T>(s: Seq<Option<T>>) -> nat {
    count_marked(occupancy(s))
}

/// The pick among the marked positions of `m` that the dice `d` makes, and
/// the dice after it. Without a marked position there is no pick and no
/// roll; otherwise one roll below the number of marked positions names the
/// pick by its rank among them.
pub open spec fn draw_marked<R: Dice>(m: Seq<bool>, d: R) -> (Option<usize>, R) {
    let c = count_marked(m);
    if c == 0 {
        (None, d)
    } else {
        (Some(nth_marked(m, d.face(c)) as usize), d.spent(c))
    }
}

/// The rows of a table of marks, one sequence for each row.
pub open spec fn rows_of<const N: usize, const M: usize>(table: [[bool; M]; N]) -> Seq<Seq<bool>> {
    Seq::new(N as nat, |i: int| table@[i]@)
}

/// Which rows of a table hold a mark.
pub open spec fn marked_rows(rows: Seq<Seq<bool>>) -> Seq<bool> {
    Seq::new(rows.len(), |i: int| count_marked(rows[i]) > 0)
}

/// The pick of a marked cell of a table that the dice `d` makes, in two
/// stages: first a row among the rows that hold a mark, each such row as
/// likely as any other however many marks it holds, then a marked cell
/// within that row. Without a mark there is no pick and no roll.
pub open spec fn draw_pair<R: Dice>(rows: Seq<Seq<bool>>, d: R) -> (Option<(usize, usize)>, R) {
    match draw_marked(marked_rows(rows), d) {
        (None, d1) => (None, d1),
        (Some(i), d1) => match draw_marked(rows[i as int], d1) {
            (None, d2) => (None, d2),
            (Some(j), d2) => (Some((i, j)), d2),
        },
    }
}

/// Whether no cell of the table is marked.
pub open spec fn no_marks(rows: Seq<Seq<bool>>) -> bool {
    forall|i: int, j: int| 0 <= i < rows.len() && 0 <= j < rows[i].len() ==> !(#[trigger] rows[i][j])
}

/// No row holds a mark exactly when no cell is marked.
pub proof fn lemma_marked_rows_none(rows: Seq<Seq<bool>>)
    ensures
        count_marked(marked_rows(rows)) == 0 <==> no_marks(rows),
{
    let mask = marked_rows(rows);
    lemma_count_marked_zero(mask);
    if count_marked(mask) == 0 {
        assert forall|i: int, j: int| 0 <= i < rows.len() && 0 <= j < rows[i].len() implies !(
        #[trigger] rows[i][j]) by {
            assert(!mask[i]);
            lemma_count_marked_zero(rows[i]);
        }
    }
    if no_marks(rows) {
        assert forall|i: int| 0 <= i < mask.len() implies !mask[i] by {
            lemma_count_marked_zero(rows[i]);
            assert forall|j: int| 0 <= j < rows[i].len() implies !rows[i][j] by {
                assert(!rows[i][j]);
            }
        }
    }
}

/// Nothing is counted exactly where nothing is marked.
pub proof fn lemma_count_marked_zero(m: Seq<bool>)
    ensures
        count_marked(m) == 0 <==> forall|i: int| 0 <= i < m.len() ==> !m[i],
    decreases m.len(),
{
    if m.len() > 0 {
        let p = m.drop_last();
        lemma_count_marked_zero(p);
        if count_marked(m) == 0 {
            assert forall|i: int| 0 <= i < m.len() implies !m[i] by {
                if i < p.len() {
                    assert(p[i] == m[i]);
                }
            }
        }
        if forall|i: int| 0 <= i < m.len() ==> !m[i] {
            assert forall|i: int| 0 <= i < p.len() implies !p[i] by {
                assert(p[i] == m[i]);
            }
            assert(!m[m.len() - 1]);
        }
    }
}

/// A prefix holds no more marks than the whole.
pub proof fn lemma_count_marked_prefix(m: Seq<bool>, i: int)
    requires
        0 <= i <= m.len(),
    ensures
        count_marked(m.take(i)) <= count_marked(m),
        count_marked(m) <= m.len(),
        count_marked(m.take(i)) <= i,
    decreases m.len(),
{
    if m.len() == 0 {
        assert(m.take(i) =~= m);
    } else if i == m.len() {
        assert(m.take(i) =~= m);
        lemma_count_marked_prefix(m.drop_last(), i - 1);
    } else {
        assert(m.drop_last().take(i) =~= m.take(i));
        lemma_count_marked_prefix(m.drop_last(), i);
    }
}

/// Extending a prefix by one position adds that position's mark.
pub proof fn lemma_count_marked_step(m: Seq<bool>, i: int)
    requires
        0 <= i < m.len(),
    ensures
        count_marked(m.take(i + 1)) == count_marked(m.take(i)) + if m[i] { 1nat } else { 0nat },
{
    assert(m.take(i + 1).drop_last() =~= m.take(i));
}

/// A marked position is found again by the number of marks before it.
pub proof fn lemma_nth_marked_of_rank(m: Seq<bool>, i: int)
    requires
        0 <= i < m.len(),
        m[i],
    ensures
        nth_marked(m, count_marked(m.take(i))) == i,
    decreases m.len(),
{
    if i == m.len() - 1 {
        assert(m.take(i) =~= m.drop_last());
    } else {
        let p = m.drop_last();
        assert(p.take(i) =~= m.take(i));
        assert(p.take(i + 1) =~= m.take(i + 1));
        lemma_count_marked_step(m, i);
        lemma_count_marked_prefix(p, i + 1);
        lemma_nth_marked_of_rank(p, i);
    }
}

/// Below the number of marks, `nth_marked` names a marked position with
/// exactly `k` marks before it.
pub proof fn lemma_nth_marked_is_marked(m: Seq<bool>, k: nat)
    requires
        k < count_marked(m),
    ensures
        0 <= nth_marked(m, k) < m.len(),
        m[nth_marked(m, k)],
        count_marked(m.take(nth_marked(m, k))) == k,
    decreases m.len(),
{
    if m.len() == 0 {
    } else if m.last() && count_marked(m.drop_last()) == k {
        assert(m.take(m.len() - 1) =~= m.drop_last());
    } else {
        let p = m.drop_last();
        lemma_nth_marked_is_marked(p, k);
        assert(p.take(nth_marked(p, k)) =~= m.take(nth_marked(p, k)));
    }
}

/// What `draw_marked` picks is a marked position, and the one whose rank
/// among the marked positions is the face of the roll. There is no pick
/// exactly when nothing is marked.
pub proof fn lemma_draw_marked<R: Dice>(m: Seq<bool>, d: R)
    requires
        m.len() <= usize::MAX,
    ensures
        draw_marked(m, d).0 is None <==> count_marked(m) == 0,
        draw_marked(m, d).0 matches Some(i) ==> i < m.len() && m[i as int] && count_marked(
            m.take(i as int),
        ) == d.face(count_marked(m)),
{
    let c = count_marked(m);
    if c > 0 {
        d.lemma_face_below(c);
        lemma_nth_marked_is_marked(m, d.face(c));
    }
}

/// What `draw_pair` picks is a marked cell of the table. There is no pick
/// exactly when no cell is marked.
pub proof fn lemma_draw_pair<R: Dice>(rows: Seq<Seq<bool>>, d: R)
    requires
        rows.len() <= usize::MAX,
        forall|i: int| 0 <= i < rows.len() ==> (#[trigger] rows[i]).len() <= usize::MAX,
    ensures
        draw_pair(rows, d).0 is None <==> no_marks(rows),
        draw_pair(rows, d).0 matches Some((i, j)) ==> i < rows.len() && j < rows[i as int].len()
            && rows[i as int][j as int],
{
    lemma_marked_rows_none(rows);
    lemma_draw_marked(marked_rows(rows), d);
    match draw_marked(marked_rows(rows), d) {
        (None, _) => {},
        (Some(i), d1) => {
            assert(marked_rows(rows)[i as int]);
            lemma_draw_marked(rows[i as int], d1);
        },
    }
}

/// Up to `k` picks among the marked positions of `m`, no position twice,
/// and the dice after them: each pick is drawn among the positions still
/// marked and then unmarked.
pub open spec fn draw_distinct<R: Dice>(m: Seq<bool>, k: nat, d: R) -> (Seq<usize>, R)
    decreases k,
{
    if k == 0 {
        (Seq::empty(), d)
    } else {
        match draw_marked(m, d) {
            (None, d1) => (Seq::empty(), d1),
            (Some(i), d1) => {
                let (rest, d2) = draw_distinct(m.update(i as int, false), (k - 1) as nat, d1);
                (seq![i] + rest, d2)
            },
        }
    }
}

/// Unmarking a marked position leaves one mark fewer.
pub proof fn lemma_unmark(m: Seq<bool>, i: int)
    requires
        0 <= i < m.len(),
        m[i],
    ensures
        count_marked(m.update(i, false)) == count_marked(m) - 1,
    decreases m.len(),
{
    let u = m.update(i, false);
    if i == m.len() - 1 {
        assert(u.drop_last() =~= m.drop_last());
    } else {
        assert(u.drop_last() =~= m.drop_last().update(i, false));
        lemma_unmark(m.drop_last(), i);
    }
}

/// The picks of `draw_distinct` are marked positions of `m`, pairwise
/// different, and as many as asked for unless the marks run out first.
pub proof fn lemma_draw_distinct<R: Dice>(m: Seq<bool>, k: nat, d: R)
    requires
        m.len() <= usize::MAX,
    ensures
        draw_distinct(m, k, d).0.len() == if k <= count_marked(m) {
            k
        } else {
            count_marked(m)
        },
        forall|a: int|
            0 <= a < draw_distinct(m, k, d).0.len() ==> (#[trigger] draw_distinct(m, k, d).0[a])
                < m.len() && m[draw_distinct(m, k, d).0[a] as int],
        forall|a: int, b: int|
            0 <= a < b < draw_distinct(m, k, d).0.len() ==> (#[trigger] draw_distinct(m, k, d).0[a])
                != (#[trigger] draw_distinct(m, k, d).0[b]),
    decreases k,
{
    if k == 0 {
    } else {
        let c = count_marked(m);
        if c == 0 {
        } else {
            d.lemma_face_below(c);
            lemma_nth_marked_is_marked(m, d.face(c));
            let i = nth_marked(m, d.face(c)) as usize;
            let d1 = d.spent(c);
            let m1 = m.update(i as int, false);
            lemma_unmark(m, i as int);
            lemma_draw_distinct(m1, (k - 1) as nat, d1);
            let rest = draw_distinct(m1, (k - 1) as nat, d1).0;
            let all = draw_distinct(m, k, d).0;
            assert(all == seq![i] + rest);
            assert forall|a: int| 0 <= a < all.len() implies (#[trigger] all[a]) < m.len()
                && m[all[a] as int] by {
                if a > 0 {
                    assert(all[a] == rest[a - 1]);
                    assert(m1[rest[a - 1] as int]);
                }
            }
            assert forall|a: int, b: int| 0 <= a < b < all.len() implies (#[trigger] all[a]) != (
            #[trigger] all[b]) by {
                assert(all[b] == rest[b - 1]);
                assert(m1[rest[b - 1] as int]);
                if a > 0 {
                    assert(all[a] == rest[a - 1]);
                }
            }
        }
    }
}

/// A row holds at most as many friends as it has positions.
pub proof fn lemma_occupied_within<T>(s: Seq<Option<T>>)
    ensures
        occupied(s) <= s.len(),
{
    lemma_count_marked_prefix(occupancy(s), 0);
}

/// A row without an empty position holds as many things as it is long.
pub proof fn lemma_all_taken<T>(s: Seq<Option<T>>)
    requires
        forall|i: int| 0 <= i < s.len() ==> (#[trigger] s[i]) is Some,
    ensures
        occupied(s) == s.len(),
    decreases s.len(),
{
    if s.len() > 0 {
        assert(occupancy(s).drop_last() =~= occupancy(s.drop_last()));
        lemma_all_taken(s.drop_last());
    }
}

/// A row whose first `n` positions are empty holds no friend among them.
pub proof fn lemma_all_empty<T>(s: Seq<Option<T>>, n: int)
    requires
        0 <= n <= s.len(),
        forall|i: int| 0 <= i < n ==> s[i] is None,
    ensures
        count_marked(occupancy(s).take(n)) == 0,
    decreases n,
{
    if n > 0 {
        lemma_all_empty(s, n - 1);
        crate::dice::lemma_count_marked_step(occupancy(s), n - 1);
    }
}

/// Counts the marked positions of `marks`.
pub fn count_marks(marks: &[bool]) -> (c: usize)
    ensures
        c == count_marked(marks@),
{
    let mut c: usize = 0;
    let mut i: usize = 0;
    while i < marks.len()
        invariant
            i <= marks.len(),
            c == count_marked(marks@.take(i as int)),
            c <= i,
        decreases marks.len() - i,
    {
        proof {
            lemma_count_marked_step(marks@, i as int);
        }
        if marks[i] {
            c = c + 1;
        }
        i = i + 1;
    }
    proof {
        assert(marks@.take(i as int) =~= marks@);
    }
    c
}

/// Picks one of the marked positions of `marks`: none when nothing is
/// marked, else the one whose rank among the marked positions the dice
/// rolls. Each marked position answers to exactly one face of that roll.
pub fn pick_marked<R: Dice>(rng: &mut R, marks: &[bool]) -> (r: Option<usize>)
    ensures
        (r, *final(rng)) == draw_marked(marks@, *old(rng)),
        r is None <==> count_marked(marks@) == 0,
        r matches Some(i) ==> i < marks@.len() && marks@[i as int],
{
    let c: usize = count_marks(marks);
    if c == 0 {
        return None;
    }
    let ghost before = *rng;
    let k: usize = rng.roll(c);
    let mut seen: usize = 0;
    let mut i: usize = 0;
    while i < marks.len()
        invariant
            i <= marks.len(),
            seen == count_marked(marks@.take(i as int)),
            seen <= k,
            k < c,
            c == count_marked(marks@),
            before == *old(rng),
            k == before.face(c as nat),
            *rng == before.spent(c as nat),
        decreases marks.len() - i,
    {
        proof {
            lemma_count_marked_step(marks@, i as int);
        }
        if marks[i] {
            if seen == k {
                proof {
                    lemma_nth_marked_of_rank(marks@, i as int);
                }
                return Some(i);
            }
            seen = seen + 1;
        }
        i = i + 1;
    }
    proof {
        assert(marks@.take(i as int) =~= marks@);
    }
    None
}

/// Picks a marked cell of `table` in two stages: a row among those that
/// hold a mark, then a marked cell in it. None when nothing is marked.
pub fn pick_pair<R: Dice, const N: usize, const M: usize>(
    rng: &mut R,
    table: &[[bool; M]; N],
) -> (r: Option<(usize, usize)>)
    ensures
        (r, *final(rng)) == draw_pair(rows_of(*table), *old(rng)),
        r matches Some((i, j)) ==> i < N && j < M && table@[i as int]@[j as int],
        r is None <==> no_marks(rows_of(*table)),
{
    let ghost rows = rows_of(*table);
    let mut mask: Vec<bool> = Vec::new();
    let mut i: usize = 0;
    while i < N
        invariant
            i <= N,
            rows == rows_of(*table),
            mask@ == marked_rows(rows).take(i as int),
        decreases N - i,
    {
        let c: usize = count_marks(table[i].as_slice());
        mask.push(c > 0);
        i = i + 1;
    }
    proof {
        assert(mask@ =~= marked_rows(rows));
        lemma_marked_rows_none(rows);
    }
    match pick_marked(rng, mask.as_slice()) {
        None => None,
        Some(i) => match pick_marked(rng, table[i].as_slice()) {
            None => None,
            Some(j) => Some((i, j)),
        },
    }
}

/// Picks one of the occupied positions of `slots`, none when all are empty.
pub fn pick_one<R: Dice, T>(rng: &mut R, slots: &[Option<T>]) -> (r: Option<usize>)
    ensures
        (r, *final(rng)) == draw_marked(occupancy(slots@), *old(rng)),
        r is None <==> occupied(slots@) == 0,
        r matches Some(i) ==> i < slots@.len() && slots@[i as int] is Some,
{
    let mut marks: Vec<bool> = Vec::new();
    let mut i: usize = 0;
    while i < slots.len()
        invariant
            i <= slots.len(),
            marks@ == occupancy(slots@).take(i as int),
        decreases slots.len() - i,
    {
        marks.push(slots[i].is_some());
        i = i + 1;
    }
    proof {
        assert(marks@ =~= occupancy(slots@));
    }
    pick_marked(rng, marks.as_slice())
}

} // verus!
