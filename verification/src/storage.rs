//! The habit store: an ordered collection of habit records with unique
//! names, addressed either by exact name or by zero-based position.

use vstd::prelude::*;
use crate::numerals::{i64_to_string, spec_i64_chars};

verus! {

/// A named trackable routine with its recorded completion timestamps
/// (seconds relative to the Unix epoch).
pub struct Habit {
    pub name: String,
    pub completions: Vec<i64>,
}

/// The mathematical value of a habit record.
#[verifier::ext_equal]
pub struct HabitView {
    pub name: Seq<char>,
    pub completions: Seq<i64>,
}

impl View for Habit {
    type V = HabitView;

    open spec fn view(&self) -> HabitView {
        HabitView { name: self.name@, completions: self.completions@ }
    }
}

/// A reference to a habit: by exact name, or by zero-based position in
/// the current in-memory ordering. A position is not a stable identifier:
/// it may refer to a different habit after any insertion or deletion.
pub enum HabitPointer {
    Name(String),
    Number(i64),
}

/// Every way a store operation can fail. The `Io` and `Json` variants
/// carry a description from the persistence layer around the store.
#[derive(Debug)]
pub enum DbError {
    Io(String),
    Json(String),
    HabitAlreadyExist(String),
    IncorrectHabitName(String),
    IndexOutOfBounds(String),
}

/// There is a habit named `name` somewhere in `s`.
pub open spec fn has_name(s: Seq<HabitView>, name: Seq<char>) -> bool {
    exists|i: int| 0 <= i < s.len() && s[i].name == name
}

/// All habit names in `s` are distinct.
pub open spec fn unique_names(s: Seq<HabitView>) -> bool {
    forall|i: int, j: int| 0 <= i < j < s.len() ==> s[i].name != s[j].name
}

/// How many habits in `s` are named `name`.
pub open spec fn count_name(s: Seq<HabitView>, name: Seq<char>) -> nat {
    s.filter(|h: HabitView| h.name == name).len()
}

/// The collection `s` with every habit named `name` removed.
pub open spec fn without_name(s: Seq<HabitView>, name: Seq<char>) -> Seq<HabitView> {
    s.filter(|h: HabitView| h.name != name)
}

/// The position of the first habit named `name`, or `-1` when there is none.
pub open spec fn first_index_of(s: Seq<HabitView>, name: Seq<char>) -> int
    decreases s.len(),
{
    if s.len() == 0 {
        -1
    } else if s[0].name == name {
        0
    } else {
        let t = first_index_of(s.drop_first(), name);
        if t < 0 {
            -1
        } else {
            1 + t
        }
    }
}

/// `first_index_of` finds a habit exactly when one of that name exists,
/// and then names the first matching position.
pub proof fn lemma_first_index_of(s: Seq<HabitView>, name: Seq<char>)
    ensures
        has_name(s, name) <==> first_index_of(s, name) >= 0,
        has_name(s, name) ==> {
            let i = first_index_of(s, name);
            0 <= i < s.len() && s[i].name == name && forall|k: int|
                0 <= k < i ==> s[k].name != name
        },
    decreases s.len(),
{
    if s.len() > 0 {
        let d = s.drop_first();
        lemma_first_index_of(d, name);
        assert(forall|k: int| 0 <= k < d.len() ==> d[k] == s[k + 1]);
        if has_name(d, name) {
            let u = choose|i: int| 0 <= i < d.len() && d[i].name == name;
            assert(s[u + 1].name == name);
            assert(has_name(s, name));
        }
        if s[0].name == name {
            assert(first_index_of(s, name) == 0);
            assert(has_name(s, name));
        } else {
            let t = first_index_of(d, name);
            assert(first_index_of(s, name) == if t < 0 {
                -1int
            } else {
                1 + t
            });
            if has_name(s, name) {
                let w = choose|i: int| 0 <= i < s.len() && s[i].name == name;
                assert(w != 0);
                assert(d[w - 1].name == name);
                assert(has_name(d, name));
                assert(t >= 0);
                assert(s[1 + t].name == name);
                assert(forall|k: int| 1 <= k < 1 + t ==> s[k] == d[k - 1]);
                assert(forall|k: int| 0 <= k < 1 + t ==> s[k].name != name);
            }
        }
    }
}

/// Whether the pointer refers to some habit in `s`.
pub open spec fn resolve_ok(s: Seq<HabitView>, p: HabitPointer) -> bool {
    match p {
        HabitPointer::Name(name) => has_name(s, name@),
        HabitPointer::Number(idx) => 0 <= idx < s.len(),
    }
}

/// The position the pointer resolves to, when `resolve_ok` holds: the
/// first habit of the name, or the numeric position itself.
pub open spec fn resolve_index(s: Seq<HabitView>, p: HabitPointer) -> int {
    match p {
        HabitPointer::Name(name) => first_index_of(s, name@),
        HabitPointer::Number(idx) => idx as int,
    }
}

/// A resolvable pointer resolves to a valid position, and a name to its
/// first occurrence.
pub proof fn lemma_resolve_index_bounds(s: Seq<HabitView>, p: HabitPointer)
    requires
        resolve_ok(s, p),
    ensures
        0 <= resolve_index(s, p) < s.len(),
{
    match p {
        HabitPointer::Name(name) => {
            lemma_first_index_of(s, name@);
        },
        HabitPointer::Number(idx) => {
        },
    }
}

/// The error a failed resolution reports.
pub open spec fn resolve_err(s: Seq<HabitView>, p: HabitPointer, e: DbError) -> bool {
    match p {
        HabitPointer::Name(name) => e matches DbError::IncorrectHabitName(n) && n@
            == name@,
        HabitPointer::Number(idx) => e matches DbError::IndexOutOfBounds(m) && m@
            == spec_i64_chars(idx as int),
    }
}

/// The sole owner of the in-memory habit collection. Mutating operations
/// report the new state through the view; the caller persists it.
pub struct Storage {
    habits: Vec<Habit>,
}

impl View for Storage {
    type V = Seq<HabitView>;

    closed spec fn view(&self) -> Seq<HabitView> {
        self.habits@.map_values(|h: Habit| h@)
    }
}

impl Storage {
    /// An empty store, as used when no persisted document exists yet.
    pub fn new() -> (s: Storage)
        ensures
            s@ == Seq::<HabitView>::empty(),
    {
        let s = Storage { habits: Vec::new() };
        proof {
            assert(s@ =~= Seq::<HabitView>::empty());
        }
        s
    }

    /// A store holding exactly the given records, in order.
    pub fn from_habits(habits: Vec<Habit>) -> (s: Storage)
        ensures
            s@ == habits@.map_values(|h: Habit| h@),
    {
        Storage { habits }
    }

    /// Appends `habit`, unless a habit of the same name is already present.
    pub fn add_habit(&mut self, habit: Habit) -> (r: Result<(), DbError>)
        ensures
            has_name(old(self)@, habit@.name) ==> (r matches Err(e)
                && e matches DbError::HabitAlreadyExist(n) && n@ == habit@.name
                && final(self)@ == old(self)@),
            !has_name(old(self)@, habit@.name) ==> (r matches Ok(u)
                && final(self)@ == old(self)@.push(habit@)),
    {
        let n = self.habits.len();
        let mut i: usize = 0;
        while i < n
            invariant
                i <= n,
                n == self.habits.len(),
                forall|k: int| 0 <= k < i ==> self@[k].name != habit@.name,
            decreases n - i,
        {
            proof {
                assert(self@[i as int] == self.habits@[i as int]@);
            }
            if self.habits[i].name == habit.name {
                proof {
                    assert(self@[i as int].name == habit@.name);
                    assert(has_name(self@, habit@.name));
                }
                return Err(DbError::HabitAlreadyExist(habit.name));
            }
            i = i + 1;
        }
        proof {
            assert(self@.len() == self.habits@.len());
        }
        self.habits.push(habit);
        proof {
            assert(self@ =~= old(self)@.push(habit@));
        }
        Ok(())
    }

    /// Removes the habit(s) the pointer refers to: all habits of the given
    /// name, or the single habit at the given position. Returns how many
    /// records were removed.
    pub fn delete_habit(&mut self, habit_pointer: HabitPointer) -> (r: Result<
        usize,
        DbError,
    >)
        ensures
            delete_post(old(self)@, final(self)@, habit_pointer, r),
    {
        match habit_pointer {
            HabitPointer::Name(name) => self.delete_by_name(name),
            HabitPointer::Number(idx) => self.delete_by_idx(idx),
        }
    }

    /// Removes every habit named `habit_name`; fails, changing nothing,
    /// when no habit has that name.
    pub fn delete_by_name(&mut self, habit_name: String) -> (r: Result<usize, DbError>)
        ensures
            !has_name(old(self)@, habit_name@) ==> (r matches Err(e)
                && e matches DbError::IncorrectHabitName(n) && n@ == habit_name@
                && final(self)@ == old(self)@),
            has_name(old(self)@, habit_name@) ==> (r matches Ok(k) && final(self)@
                == without_name(old(self)@, habit_name@) && k == old(self)@.len()
                - final(self)@.len() && k >= 1),
    {
        let n = self.habits.len();
        let mut found = false;
        let mut i: usize = 0;
        while i < n
            invariant
                i <= n,
                n == self.habits.len(),
                found <==> exists|k: int| 0 <= k < i && self@[k].name == habit_name@,
            decreases n - i,
        {
            proof {
                assert(self@[i as int] == self.habits@[i as int]@);
            }
            if self.habits[i].name == habit_name {
                found = true;
            }
            i = i + 1;
        }
        proof {
            assert(self@.len() == self.habits@.len());
        }
        if !found {
            return Err(DbError::IncorrectHabitName(habit_name));
        }
        let ghost ov = self@;
        let mut kept: Vec<Habit> = Vec::new();
        proof {
            assert(ov.subrange(0, 0) =~= Seq::<HabitView>::empty());
            assert(kept@.map_values(|h: Habit| h@) =~= Seq::<HabitView>::empty());
            reveal(Seq::filter);
        }
        let orig_len = self.habits.len();
        let mut j: usize = 0;
        while j < orig_len
            invariant
                j <= orig_len,
                orig_len - j == self.habits.len(),
                self.habits@.map_values(|h: Habit| h@) =~= ov.subrange(
                    j as int,
                    orig_len as int,
                ),
                ov.len() == orig_len,
                kept@.map_values(|h: Habit| h@) == without_name(
                    ov.subrange(0, j as int),
                    habit_name@,
                ),
            decreases orig_len - j,
        {
            let ghost pre = self.habits@;
            let h = self.habits.remove(0);
            proof {
                assert(pre.map_values(|h: Habit| h@)[0] == pre[0]@);
                assert(pre.map_values(|h: Habit| h@)[0] == ov.subrange(
                    j as int,
                    orig_len as int,
                )[0]);
                assert(h@ == ov[j as int]);
                assert(ov.subrange(0, j + 1).drop_last() =~= ov.subrange(0, j as int));
                assert(ov.subrange(0, j + 1).last() == ov[j as int]);
                reveal(Seq::filter);
                assert(self.habits@ == pre.remove(0));
                assert(forall|q: int|
                    0 <= q < self.habits@.len() ==> self.habits@[q] == pre[q + 1]);
                assert forall|q: int| 0 <= q < self.habits@.len() implies self.habits@
                    .map_values(|h: Habit| h@)[q] == #[trigger] ov.subrange(
                    j + 1,
                    orig_len as int,
                )[q] by {
                    assert(self.habits@.map_values(|h: Habit| h@)[q] == self.habits@[q]@);
                    assert(pre.map_values(|h: Habit| h@)[q + 1] == pre[q + 1]@);
                    assert(pre.map_values(|h: Habit| h@)[q + 1] == ov.subrange(
                        j as int,
                        orig_len as int,
                    )[q + 1]);
                }
                assert(self.habits@.map_values(|h: Habit| h@) =~= ov.subrange(
                    j + 1,
                    orig_len as int,
                ));
            }
            if h.name != habit_name {
                kept.push(h);
                proof {
                    reveal(Seq::filter);
                    assert(kept@.map_values(|h: Habit| h@) =~= without_name(
                        ov.subrange(0, j + 1),
                        habit_name@,
                    ));
                }
            }
            j = j + 1;
        }
        self.habits = kept;
        proof {
            assert(ov.subrange(0, orig_len as int) =~= ov);
            lemma_filter_drops_match(ov, habit_name@);
        }
        Ok(orig_len - self.habits.len())
    }

    /// Removes the habit at position `idx`; fails, changing nothing, when
    /// `idx` is not a valid position.
    pub fn delete_by_idx(&mut self, idx: i64) -> (r: Result<usize, DbError>)
        ensures
            !(0 <= idx < old(self)@.len()) ==> (r matches Err(e)
                && e matches DbError::IndexOutOfBounds(m)
                && m@ == spec_i64_chars(idx as int) && final(self)@ == old(self)@),
            0 <= idx < old(self)@.len() ==> (r matches Ok(k) && k == 1usize
                && final(self)@ == old(self)@.remove(idx as int)),
    {
        proof {
            assert(self@.len() == self.habits@.len());
        }
        let len: u64 = self.habits.len() as u64;
        if idx < 0 || idx as u64 >= len {
            return Err(DbError::IndexOutOfBounds(i64_to_string(idx)));
        }
        self.habits.remove(idx as usize);
        proof {
            assert(self@ =~= old(self)@.remove(idx as int));
        }
        Ok(1)
    }

    /// A read-only view of the full ordered collection.
    pub fn get_habits(&self) -> (r: &[Habit])
        ensures
            r@.map_values(|h: Habit| h@) == self@,
    {
        self.habits.as_slice()
    }

    /// Resolves a pointer to the position of the habit it refers to, for
    /// mutation through that position; the store itself is unchanged. A
    /// name resolves to the first habit carrying it.
    pub fn get_mut_habit(&mut self, habit_pointer: HabitPointer) -> (r: Result<
        usize,
        DbError,
    >)
        ensures
            final(self)@ == old(self)@,
            resolve_ok(old(self)@, habit_pointer) ==> (r matches Ok(i) && i
                == resolve_index(old(self)@, habit_pointer)),
            !resolve_ok(old(self)@, habit_pointer) ==> (r matches Err(e) && resolve_err(
                old(self)@,
                habit_pointer,
                e,
            )),
    {
        match habit_pointer {
            HabitPointer::Name(name) => self.get_mut_habit_by_name(name),
            HabitPointer::Number(idx) => self.get_mut_habit_by_idx(idx),
        }
    }

    /// Resolves a name to the position of the first habit carrying it.
    pub fn get_mut_habit_by_name(&mut self, habit_name: String) -> (r: Result<
        usize,
        DbError,
    >)
        ensures
            final(self)@ == old(self)@,
            has_name(old(self)@, habit_name@) ==> (r matches Ok(i) && i == first_index_of(
                old(self)@,
                habit_name@,
            )),
            !has_name(old(self)@, habit_name@) ==> (r matches Err(e)
                && e matches DbError::IncorrectHabitName(n) && n@ == habit_name@),
    {
        proof {
            lemma_first_index_of(self@, habit_name@);
        }
        let n = self.habits.len();
        let mut i: usize = 0;
        while i < n
            invariant
                i <= n,
                n == self.habits.len(),
                forall|k: int| 0 <= k < i ==> self@[k].name != habit_name@,
            decreases n - i,
        {
            proof {
                assert(self@[i as int] == self.habits@[i as int]@);
            }
            if self.habits[i].name == habit_name {
                proof {
                    assert(self@[i as int].name == habit_name@);
                    assert(has_name(self@, habit_name@));
                    lemma_first_index_of(self@, habit_name@);
                }
                return Ok(i);
            }
            i = i + 1;
        }
        proof {
            assert(self@.len() == self.habits@.len());
            assert(!has_name(self@, habit_name@));
        }
        Err(DbError::IncorrectHabitName(habit_name))
    }

    /// Resolves a numeric pointer to its position when it is in bounds.
    pub fn get_mut_habit_by_idx(&mut self, idx: i64) -> (r: Result<usize, DbError>)
        ensures
            final(self)@ == old(self)@,
            0 <= idx < old(self)@.len() ==> (r matches Ok(i) && i as int == idx as int),
            !(0 <= idx < old(self)@.len()) ==> (r matches Err(e)
                && e matches DbError::IndexOutOfBounds(m) && m@ == spec_i64_chars(
                idx as int,
            )),
    {
        proof {
            assert(self@.len() == self.habits@.len());
        }
        let len: u64 = self.habits.len() as u64;
        if 0 <= idx && (idx as u64) < len {
            Ok(idx as usize)
        } else {
            Err(DbError::IndexOutOfBounds(i64_to_string(idx)))
        }
    }

    /// Appends a completion timestamp to the habit the pointer refers to;
    /// the flow behind the `complete` command.
    pub fn complete_habit(&mut self, habit_pointer: HabitPointer, stamp: i64) -> (r:
        Result<(), DbError>)
        ensures
            resolve_ok(old(self)@, habit_pointer) ==> (r matches Ok(u) && final(self)@
                == stamped(old(self)@, resolve_index(old(self)@, habit_pointer), stamp)),
            !resolve_ok(old(self)@, habit_pointer) ==> (r matches Err(e) && resolve_err(
                old(self)@,
                habit_pointer,
                e,
            ) && final(self)@ == old(self)@),
    {
        proof {
            if resolve_ok(self@, habit_pointer) {
                lemma_resolve_index_bounds(self@, habit_pointer);
            }
        }
        let i = match self.get_mut_habit(habit_pointer) {
            Ok(i) => i,
            Err(e) => {
                return Err(e);
            },
        };
        let ghost pre = self@;
        proof {
            assert(self@.len() == self.habits@.len());
            assert(self@[i as int] == self.habits@[i as int]@);
        }
        self.habits[i].completions.push(stamp);
        proof {
            assert(self@ =~= stamped(pre, i as int, stamp));
        }
        Ok(())
    }
}

/// The collection `s` with the completion `stamp` appended to the habit
/// at position `i`.
pub open spec fn stamped(s: Seq<HabitView>, i: int, stamp: i64) -> Seq<HabitView> {
    s.update(
        i,
        HabitView { name: s[i].name, completions: s[i].completions.push(stamp) },
    )
}

/// What deleting through a pointer does: removal of all habits of the
/// name, or of the single habit at the position, with the matching error
/// and no change otherwise.
pub open spec fn delete_post(
    pre: Seq<HabitView>,
    post: Seq<HabitView>,
    p: HabitPointer,
    r: Result<usize, DbError>,
) -> bool {
    match p {
        HabitPointer::Name(name) => {
            if has_name(pre, name@) {
                r matches Ok(k) && post == without_name(pre, name@) && k == pre.len()
                    - post.len() && k >= 1
            } else {
                r matches Err(e) && e matches DbError::IncorrectHabitName(n) && n@ == name@
                    && post == pre
            }
        },
        HabitPointer::Number(idx) => {
            if 0 <= idx < pre.len() {
                r matches Ok(k) && k == 1usize && post == pre.remove(idx as int)
            } else {
                r matches Err(e) && e matches DbError::IndexOutOfBounds(m) && m@
                    == spec_i64_chars(idx as int) && post == pre
            }
        },
    }
}

/// Removing by name removes at least one record: the filtered collection
/// is strictly shorter whenever the name occurs, and never longer than
/// the original.
pub proof fn lemma_filter_drops_match(s: Seq<HabitView>, name: Seq<char>)
    ensures
        without_name(s, name).len() <= s.len(),
        has_name(s, name) ==> without_name(s, name).len() < s.len(),
    decreases s.len(),
{
    reveal(Seq::filter);
    if s.len() > 0 {
        lemma_filter_drops_match(s.drop_last(), name);
        assert(without_name(s.drop_last(), name) == s.drop_last().filter(
            |h: HabitView| h.name != name,
        ));
        if has_name(s, name) && s.last().name != name {
            if !has_name(s.drop_last(), name) {
                let w = choose|i: int| 0 <= i < s.len() && s[i].name == name;
                assert(s.drop_last()[w] == s[w]);
                assert(false);
            }
        }
    }
}

} // verus!

verus! {

/// No habit of an absent name is counted.
pub proof fn lemma_count_name_absent(s: Seq<HabitView>, name: Seq<char>)
    requires
        !has_name(s, name),
    ensures
        count_name(s, name) == 0,
    decreases s.len(),
{
    reveal(Seq::filter);
    if s.len() > 0 {
        let d = s.drop_last();
        assert(!has_name(d, name)) by {
            if has_name(d, name) {
                let w = choose|i: int| 0 <= i < d.len() && d[i].name == name;
                assert(s[w].name == name);
            }
        }
        lemma_count_name_absent(d, name);
        assert(s.last().name != name) by {
            if s.last().name == name {
                assert(s[s.len() - 1].name == name);
            }
        }
    }
}

/// Appending a habit under a fresh name leaves exactly one habit of that
/// name; every prior entry keeps its position, and the new habit stands
/// at the end.
pub proof fn lemma_append_fresh_name(s: Seq<HabitView>, h: HabitView)
    requires
        !has_name(s, h.name),
    ensures
        count_name(s.push(h), h.name) == 1,
        s.push(h)[s.len() as int] == h,
        forall|k: int| 0 <= k < s.len() ==> #[trigger] s.push(h)[k] == s[k],
        has_name(s.push(h), h.name),
{
    reveal(Seq::filter);
    lemma_count_name_absent(s, h.name);
    assert(s.push(h).drop_last() =~= s);
    assert(s.push(h).last() == h);
    assert(s.push(h)[s.len() as int] == h);
}

/// Deleting by a valid position removes exactly the entry there: earlier
/// entries keep their positions and later ones shift down by one.
pub proof fn lemma_remove_shifts(s: Seq<HabitView>, i: int)
    requires
        0 <= i < s.len(),
    ensures
        s.remove(i).len() == s.len() - 1,
        forall|k: int| 0 <= k < i ==> #[trigger] s.remove(i)[k] == s[k],
        forall|k: int| i <= k < s.len() - 1 ==> #[trigger] s.remove(i)[k] == s[k + 1],
{
    s.remove_ensures(i);
}

/// Name uniqueness survives appending a fresh name.
pub proof fn lemma_unique_after_add(s: Seq<HabitView>, h: HabitView)
    requires
        unique_names(s),
        !has_name(s, h.name),
    ensures
        unique_names(s.push(h)),
{
    assert forall|i: int, j: int|
        0 <= i < j < s.push(h).len() implies s.push(h)[i].name != s.push(h)[j].name by {
        if j == s.len() {
            if s[i].name == h.name {
                assert(has_name(s, h.name));
            }
        }
    }
}

/// Name uniqueness survives removal of any position.
pub proof fn lemma_unique_after_remove(s: Seq<HabitView>, i: int)
    requires
        unique_names(s),
        0 <= i < s.len(),
    ensures
        unique_names(s.remove(i)),
{
    lemma_remove_shifts(s, i);
}

/// Every entry of the filtered collection comes from the original.
proof fn lemma_without_name_from(s: Seq<HabitView>, name: Seq<char>)
    ensures
        forall|j: int|
            0 <= j < without_name(s, name).len() ==> exists|i: int|
                0 <= i < s.len() && s[i] == #[trigger] without_name(s, name)[j],
    decreases s.len(),
{
    reveal(Seq::filter);
    if s.len() > 0 {
        let d = s.drop_last();
        lemma_without_name_from(d, name);
        assert(forall|i: int| 0 <= i < d.len() ==> d[i] == s[i]);
        assert forall|j: int| 0 <= j < without_name(s, name).len() implies exists|i: int|
            0 <= i < s.len() && s[i] == #[trigger] without_name(s, name)[j] by {
            if j < without_name(d, name).len() {
                assert(without_name(s, name)[j] == without_name(d, name)[j]);
                let w = choose|i: int|
                    0 <= i < d.len() && d[i] == without_name(d, name)[j];
                assert(s[w] == without_name(s, name)[j]);
            } else {
                assert(without_name(s, name)[j] == s.last());
                assert(s[s.len() - 1] == without_name(s, name)[j]);
            }
        }
    }
}

/// Name uniqueness survives deletion by name.
pub proof fn lemma_unique_after_delete_name(s: Seq<HabitView>, name: Seq<char>)
    requires
        unique_names(s),
    ensures
        unique_names(without_name(s, name)),
    decreases s.len(),
{
    reveal(Seq::filter);
    if s.len() > 0 {
        let d = s.drop_last();
        assert(unique_names(d)) by {
            assert(forall|i: int| 0 <= i < d.len() ==> d[i] == s[i]);
        }
        lemma_unique_after_delete_name(d, name);
        if s.last().name != name {
            lemma_without_name_from(d, name);
            assert forall|i: int, j: int|
                0 <= i < j < without_name(s, name).len() implies without_name(
                s,
                name,
            )[i].name != without_name(s, name)[j].name by {
                if j == without_name(s, name).len() - 1 {
                    assert(without_name(s, name)[j] == s.last());
                    assert(without_name(s, name)[i] == without_name(d, name)[i]);
                    let w = choose|q: int|
                        0 <= q < d.len() && d[q] == without_name(d, name)[i];
                    assert(s[w] == without_name(s, name)[i]);
                    assert(s[w].name != s[s.len() - 1].name);
                } else {
                    assert(without_name(s, name)[i] == without_name(d, name)[i]);
                    assert(without_name(s, name)[j] == without_name(d, name)[j]);
                }
            }
        }
    }
}

} // verus!
