//! A small table from names to values that keeps the order in which names were added.
use vstd::prelude::*;

use crate::text;

verus! {

/// The rows of a table: each a name and its value.
pub struct Table<V> {
    rows: Vec<(String, V)>,
}

impl<V> View for Table<V> {
    type V = Seq<(Seq<char>, V)>;

    closed spec fn view(&self) -> Seq<(Seq<char>, V)> {
        Seq::new(self.rows@.len(), |i: int| (self.rows@[i].0@, self.rows@[i].1))
    }
}

/// No two rows have the same name.
pub open spec fn distinct<V>(rows: Seq<(Seq<char>, V)>) -> bool {
    forall|i: int, j: int|
        0 <= i < j < rows.len() ==> (#[trigger] rows[i]).0 != (#[trigger] rows[j]).0
}

/// The first row with the given name, or the number of rows where there is none.
pub open spec fn place<V>(rows: Seq<(Seq<char>, V)>, name: Seq<char>) -> nat
    decreases rows.len(),
{
    if rows.len() == 0 || rows[0].0 == name {
        0
    } else {
        1 + place(rows.drop_first(), name)
    }
}

/// Some row has the given name.
pub open spec fn has_name<V>(rows: Seq<(Seq<char>, V)>, name: Seq<char>) -> bool {
    place(rows, name) < rows.len()
}

/// The rows with `value` under `name`: in place of the row that had the name, else at the end.
pub open spec fn inserted<V>(
    rows: Seq<(Seq<char>, V)>,
    name: Seq<char>,
    value: V,
) -> Seq<(Seq<char>, V)> {
    if has_name(rows, name) {
        rows.update(place(rows, name) as int, (name, value))
    } else {
        rows.push((name, value))
    }
}

/// What the rows say of each name.
pub open spec fn as_map<V>(rows: Seq<(Seq<char>, V)>) -> Map<Seq<char>, V> {
    Map::new(
        |name: Seq<char>| has_name(rows, name),
        |name: Seq<char>| rows[place(rows, name) as int].1,
    )
}

pub proof fn lemma_place<V>(rows: Seq<(Seq<char>, V)>, name: Seq<char>)
    ensures
        place(rows, name) <= rows.len(),
        forall|i: int| 0 <= i < place(rows, name) ==> (#[trigger] rows[i]).0 != name,
        has_name(rows, name) ==> rows[place(rows, name) as int].0 == name,
    decreases rows.len(),
{
    if rows.len() > 0 && rows[0].0 != name {
        let rest = rows.drop_first();
        lemma_place(rest, name);
        assert forall|i: int| 0 <= i < place(rows, name) implies (#[trigger] rows[i]).0 != name by {
            if i > 0 {
                assert(rows[i] == rest[i - 1]);
            }
        }
        if has_name(rows, name) {
            assert(rows[place(rows, name) as int] == rest[place(rest, name) as int]);
        }
    }
}

/// A row is the first with its name when none before it has that name.
pub proof fn lemma_place_is<V>(rows: Seq<(Seq<char>, V)>, name: Seq<char>, k: int)
    requires
        0 <= k <= rows.len(),
        forall|i: int| 0 <= i < k ==> (#[trigger] rows[i]).0 != name,
        k < rows.len() ==> rows[k].0 == name,
    ensures
        place(rows, name) == k,
{
    lemma_place(rows, name);
    let p = place(rows, name) as int;
    if p < k {
        assert(rows[p].0 != name);
    }
    if k < p {
        assert(rows[k].0 != name);
    }
}

/// In a table with distinct names, putting a value in changes what that name maps to, and
/// nothing else; the names stay distinct.
pub proof fn lemma_inserted<V>(rows: Seq<(Seq<char>, V)>, name: Seq<char>, value: V)
    requires
        distinct(rows),
    ensures
        distinct(inserted(rows, name, value)),
        as_map(inserted(rows, name, value)) == as_map(rows).insert(name, value),
{
    let after = inserted(rows, name, value);
    lemma_place(rows, name);
    let p = place(rows, name) as int;
    assert forall|i: int, j: int| 0 <= i < j < after.len() implies (#[trigger] after[i]).0 != (
    #[trigger] after[j]).0 by {
        if has_name(rows, name) {
            assert(rows[i].0 != rows[j].0);
        } else {
            assert(rows[i].0 != name);
            if j < rows.len() {
                assert(rows[i].0 != rows[j].0);
            }
        }
    }
    assert(after[p] == (name, value));
    assert forall|n: Seq<char>|
        #![trigger has_name(after, n)]
        has_name(after, n) == (n == name || has_name(rows, n)) && (has_name(after, n)
            ==> after[place(after, n) as int].1 == if n == name {
            value
        } else {
            rows[place(rows, n) as int].1
        }) by {
        lemma_place(rows, n);
        lemma_place(after, n);
        if n == name {
            assert forall|i: int| 0 <= i < p implies (#[trigger] after[i]).0 != name by {
                assert(after[i] == rows[i]);
            }
            lemma_place_is(after, n, p);
        } else if has_name(rows, n) {
            let q = place(rows, n) as int;
            assert(after[q] == rows[q]);
            assert forall|i: int| 0 <= i < q implies (#[trigger] after[i]).0 != n by {
                assert(rows[i].0 != n);
            }
            lemma_place_is(after, n, q);
        } else {
            assert forall|i: int| 0 <= i < after.len() implies (#[trigger] after[i]).0 != n by {
                if i < rows.len() {
                    assert(rows[i].0 != n);
                }
            }
            lemma_place_is(after, n, after.len() as int);
        }
    }
    assert(as_map(after) =~= as_map(rows).insert(name, value));
}

/// Removing a row leaves the names distinct.
pub proof fn lemma_removed_distinct<V>(rows: Seq<(Seq<char>, V)>, k: int)
    requires
        distinct(rows),
        0 <= k < rows.len(),
    ensures
        distinct(rows.remove(k)),
{
    let after = rows.remove(k);
    assert forall|i: int, j: int| 0 <= i < j < after.len() implies (#[trigger] after[i]).0 != (
    #[trigger] after[j]).0 by {
        let a = if i < k {
            i
        } else {
            i + 1
        };
        let b = if j < k {
            j
        } else {
            j + 1
        };
        assert(after[i] == rows[a]);
        assert(after[j] == rows[b]);
    }
}

impl<V> Table<V> {
    /// A table without rows.
    pub fn new() -> (t: Table<V>)
        ensures
            t@ == Seq::<(Seq<char>, V)>::empty(),
            distinct(t@),
    {
        let t = Table { rows: Vec::new() };
        assert(t@ =~= Seq::<(Seq<char>, V)>::empty());
        t
    }

    /// How many rows there are.
    pub fn len(&self) -> (n: usize)
        ensures
            n == self@.len(),
    {
        self.rows.len()
    }

    /// The name in a row.
    pub fn name_at(&self, i: usize) -> (name: &String)
        requires
            i < self@.len(),
        ensures
            name@ == self@[i as int].0,
    {
        &self.rows[i].0
    }

    /// The value in a row.
    pub fn value_at(&self, i: usize) -> (value: &V)
        requires
            i < self@.len(),
        ensures
            *value == self@[i as int].1,
    {
        &self.rows[i].1
    }

    /// Finds the row of a name.
    pub fn find(&self, name: &str) -> (row: Option<usize>)
        ensures
            match row {
                Some(i) => has_name(self@, name@) && i == place(self@, name@),
                None => !has_name(self@, name@),
            },
    {
        let mut i: usize = 0;
        while i < self.rows.len()
            invariant
                i <= self.rows@.len(),
                forall|k: int| 0 <= k < i ==> (#[trigger] self@[k]).0 != name@,
            decreases self.rows@.len() - i,
        {
            if text::same_text(self.rows[i].0.as_str(), name) {
                proof {
                    lemma_place_is(self@, name@, i as int);
                }
                return Some(i);
            }
            assert(self@[i as int].0 != name@);
            i = i + 1;
        }
        proof {
            lemma_place_is(self@, name@, i as int);
        }
        None
    }

    /// Opens the value in a row to change.
    pub fn value_mut(&mut self, i: usize) -> (value: &mut V)
        requires
            i < old(self)@.len(),
        ensures
            *value == old(self)@[i as int].1,
            final(self)@ == old(self)@.update(i as int, (old(self)@[i as int].0, *final(value))),
            distinct(old(self)@) ==> distinct(final(self)@),
    {
        &mut self.rows[i].1
    }

    /// Puts a value under a name.
    pub fn insert(&mut self, name: String, value: V)
        ensures
            final(self)@ == inserted(old(self)@, name@, value),
            distinct(old(self)@) ==> distinct(final(self)@),
            distinct(old(self)@) ==> as_map(final(self)@) == as_map(old(self)@).insert(name@, value),
    {
        proof {
            if distinct(self@) {
                lemma_inserted(self@, name@, value);
            }
        }
        match self.find(name.as_str()) {
            Some(i) => {
                proof {
                    lemma_place(self@, name@);
                }
                *self.value_mut(i) = value;
            },
            None => {
                self.rows.push((name, value));
                assert(self@ =~= old(self)@.push((name@, value)));
            },
        }
    }

    /// Takes a row out; the rows after it move up.
    pub fn remove(&mut self, i: usize)
        requires
            i < old(self)@.len(),
        ensures
            final(self)@ == old(self)@.remove(i as int),
            distinct(old(self)@) ==> distinct(final(self)@),
    {
        proof {
            if distinct(self@) {
                lemma_removed_distinct(self@, i as int);
            }
        }
        let _ = self.rows.remove(i);
        assert(self@ =~= old(self)@.remove(i as int));
    }

    /// Takes all rows out.
    pub fn clear(&mut self)
        ensures
            final(self)@ == Seq::<(Seq<char>, V)>::empty(),
            distinct(final(self)@),
    {
        self.rows.clear();
        assert(self@ =~= Seq::<(Seq<char>, V)>::empty());
    }
}

/// A name is in a table where some row has it, and its place is the first such row.
pub proof fn law_names_are_found<V>(rows: Seq<(Seq<char>, V)>, name: Seq<char>)
    ensures
        has_name(rows, name) == (exists|i: int|
            0 <= i < rows.len() && (#[trigger] rows[i]).0 == name),
        has_name(rows, name) ==> 0 <= place(rows, name) < rows.len() && rows[place(
            rows,
            name,
        ) as int].0 == name,
        forall|i: int|
            0 <= i < rows.len() && (#[trigger] rows[i]).0 == name ==> place(rows, name) <= i,
{
    lemma_place(rows, name);
}

/// Putting a value under a name changes the row of that name, or adds one behind the others, and
/// leaves every other row.
pub proof fn law_insertion_changes_one_row<V>(
    rows: Seq<(Seq<char>, V)>,
    name: Seq<char>,
    value: V,
)
    ensures
        ({
            let after = inserted(rows, name, value);
            &&& forall|i: int|
                0 <= i < rows.len() && (#[trigger] rows[i]).0 != name ==> after[i] == rows[i]
            &&& (forall|i: int| 0 <= i < rows.len() ==> (#[trigger] rows[i]).0 != name)
                ==> after == rows.push((name, value))
            &&& (exists|i: int| 0 <= i < rows.len() && (#[trigger] rows[i]).0 == name)
                ==> after.len() == rows.len()
            &&& exists|i: int| 0 <= i < after.len() && #[trigger] after[i] == (name, value)
        }),
{
    let after = inserted(rows, name, value);
    lemma_place(rows, name);
    assert(after[place(rows, name) as int] == (name, value));
}

} // verus!
