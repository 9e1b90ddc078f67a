//! Rows that are found by name, in the order in which the names came.
use crate::text;
use vstd::prelude::*;

verus! {

/// Where the row with a name stands.
pub open spec fn place_of<V>(rows: Seq<(Seq<char>, V)>, name: Seq<char>) -> Option<int>
    decreases rows.len(),
{
    if rows.len() == 0 {
        None
    } else if rows.last().0 == name {
        Some(rows.len() - 1)
    } else {
        place_of(rows.drop_last(), name)
    }
}

/// The value of the row with a name.
pub open spec fn value_of<V>(rows: Seq<(Seq<char>, V)>, name: Seq<char>) -> Option<V> {
    match place_of(rows, name) {
        Some(i) => Some(rows[i].1),
        None => None,
    }
}

/// The rows after a name got a value: a known name keeps its place, a new one comes last.
pub open spec fn with_row<V>(rows: Seq<(Seq<char>, V)>, name: Seq<char>, value: V) -> Seq<(Seq<char>, V)> {
    match place_of(rows, name) {
        Some(i) => rows.update(i, (name, value)),
        None => rows.push((name, value)),
    }
}

/// No name occurs twice.
pub open spec fn distinct<V>(rows: Seq<(Seq<char>, V)>) -> bool {
    forall|i: int, j: int| 0 <= i < j < rows.len() ==> #[trigger] rows[i].0 != #[trigger] rows[j].0
}

pub proof fn lemma_place_of<V>(rows: Seq<(Seq<char>, V)>, name: Seq<char>)
    ensures
        match place_of(rows, name) {
            Some(i) => 0 <= i < rows.len() && rows[i].0 == name,
            None => forall|i: int| 0 <= i < rows.len() ==> #[trigger] rows[i].0 != name,
        },
    decreases rows.len(),
{
    if rows.len() > 0 {
        lemma_place_of(rows.drop_last(), name);
        if place_of(rows, name) is None {
            assert forall|i: int| 0 <= i < rows.len() implies #[trigger] rows[i].0 != name by {
                if i < rows.len() - 1 {
                    assert(rows.drop_last()[i].0 != name);
                }
            }
        }
    }
}

/// Names stay distinct, and what a name was given is what is found under it, whatever other
/// names hold.
pub proof fn law_with_row<V>(rows: Seq<(Seq<char>, V)>, name: Seq<char>, value: V, other: Seq<char>)
    requires
        distinct(rows),
    ensures
        distinct(with_row(rows, name, value)),
        value_of(with_row(rows, name, value), name) == Some(value),
        other != name ==> value_of(with_row(rows, name, value), other) == value_of(rows, other),
{
    let after = with_row(rows, name, value);
    lemma_place_of(rows, name);
    lemma_place_of(rows, other);
    assert(distinct(after)) by {
        assert forall|i: int, j: int| 0 <= i < j < after.len() implies #[trigger] after[i].0 != #[trigger] after[j].0 by {
            if i < rows.len() && j < rows.len() {
                assert(rows[i].0 != rows[j].0);
            }
        }
    }
    lemma_place_of(after, name);
    lemma_place_of(after, other);
    let here = match place_of(rows, name) {
        Some(i) => i,
        None => rows.len() as int,
    };
    assert(after[here].0 == name);
    if place_of(after, name) != Some(here) {
        let p = place_of(after, name)->Some_0;
        if p < here {
            assert(after[p].0 != after[here].0);
        } else {
            assert(after[here].0 != after[p].0);
        }
    }
    if other != name {
        match (place_of(rows, other), place_of(after, other)) {
            (Some(a), Some(b)) => {
                assert(after[a].0 == other);
                if a < b {
                    assert(after[a].0 != after[b].0);
                } else if b < a {
                    assert(after[b].0 != after[a].0);
                }
            },
            (Some(a), None) => {
                assert(after[a].0 == other);
            },
            (None, Some(b)) => {
                assert(rows[b].0 == other);
            },
            (None, None) => {},
        }
    }
}

/// Rows of values under distinct names.
pub struct Table<V> {
    rows: Vec<(String, V)>,
}

impl<V> View for Table<V> {
    type V = Seq<(Seq<char>, V)>;

    closed spec fn view(&self) -> Seq<(Seq<char>, V)> {
        self.rows@.map_values(|r: (String, V)| (r.0@, r.1))
    }
}

impl<V> Table<V> {
    /// No name occurs twice.
    #[verifier::type_invariant]
    spec fn well_formed(self) -> bool {
        distinct(self@)
    }

    pub fn new() -> (r: Self)
        ensures
            r@ == Seq::<(Seq<char>, V)>::empty(),
    {
        let r: Table<V> = Table { rows: Vec::new() };
        assert(r@ =~= Seq::<(Seq<char>, V)>::empty());
        r
    }

    /// How many rows there are; no two have the same name.
    pub fn len(&self) -> (r: usize)
        ensures
            r == self@.len(),
            distinct(self@),
    {
        proof {
            use_type_invariant(self);
        }
        self.rows.len()
    }

    pub fn name_at(&self, i: usize) -> (r: &str)
        requires
            i < self@.len(),
        ensures
            r@ == self@[i as int].0,
    {
        self.rows[i].0.as_str()
    }

    pub fn value_at(&self, i: usize) -> (r: &V)
        requires
            i < self@.len(),
        ensures
            *r == self@[i as int].1,
    {
        &self.rows[i].1
    }

    fn place(&self, name: &str) -> (r: Option<usize>)
        ensures
            match r {
                Some(i) => i < self@.len() && place_of(self@, name@) == Some(i as int),
                None => place_of(self@, name@) is None,
            },
    {
        let mut i: usize = self.rows.len();
        let ghost all = self@;
        assert(all.take(i as int) =~= all);
        while i > 0
            invariant
                i <= self.rows@.len(),
                all == self@,
                all.len() == self.rows@.len(),
                place_of(all, name@) == place_of(all.take(i as int), name@),
            decreases i,
        {
            let k: usize = i - 1;
            assert(all[k as int].0 == self.rows@[k as int].0@);
            assert(all.take(i as int).last() == all[k as int]);
            assert(all.take(i as int).drop_last() =~= all.take(k as int));
            if text::same_str(self.rows[k].0.as_str(), name) {
                return Some(k);
            }
            i = k;
        }
        None
    }

    /// The value of the row with a name.
    pub fn get(&self, name: &str) -> (r: Option<&V>)
        ensures
            match r {
                Some(v) => value_of(self@, name@) == Some(*v),
                None => value_of(self@, name@) is None,
            },
    {
        match self.place(name) {
            Some(i) => Some(&self.rows[i].1),
            None => None,
        }
    }

    /// Gives a name a value.
    pub fn put(&mut self, name: String, value: V)
        ensures
            final(self)@ == with_row(old(self)@, name@, value),
    {
        proof {
            use_type_invariant(&*self);
        }
        let place: Option<usize> = self.place(name.as_str());
        let ghost before = self@;
        let ghost label = name@;
        proof {
            law_with_row(before, label, value, label);
        }
        let mut rows: Vec<(String, V)> = Vec::new();
        std::mem::swap(&mut rows, &mut self.rows);
        let ghost swapped = rows@;
        assert(swapped.map_values(|r: (String, V)| (r.0@, r.1)) == before);
        match place {
            Some(i) => {
                rows.set(i, (name, value));
            },
            None => {
                rows.push((name, value));
            },
        }
        assert(rows@.map_values(|r: (String, V)| (r.0@, r.1)) =~= with_row(before, label, value));
        self.rows = rows;
    }
}


/// A value is found under its name, wherever its row stands; a name without a row has none.
pub proof fn law_value_is_of_its_row<V>(rows: Seq<(Seq<char>, V)>, i: int, other: Seq<char>)
    requires
        distinct(rows),
        0 <= i < rows.len(),
        forall|j: int| 0 <= j < rows.len() ==> (#[trigger] rows[j]).0 != other,
    ensures
        value_of(rows, rows[i].0) == Some(rows[i].1),
        value_of(rows, other) is None,
{
    lemma_place_of(rows, rows[i].0);
    lemma_place_of(rows, other);
    let k = place_of(rows, rows[i].0)->Some_0;
    if k < i {
        assert(rows[k].0 != rows[i].0);
    } else if i < k {
        assert(rows[i].0 != rows[k].0);
    }
}

/// A new name comes last, and a known one keeps its place; no other row moves or changes.
pub proof fn law_rows_keep_their_places<V>(rows: Seq<(Seq<char>, V)>, name: Seq<char>, value: V, i: int)
    requires
        distinct(rows),
        0 <= i < rows.len(),
    ensures
        with_row(rows, name, value)[i] == if rows[i].0 == name {
            (name, value)
        } else {
            rows[i]
        },
        with_row(rows, name, value).len() == rows.len() || (with_row(rows, name, value).len() == rows.len() + 1
            && with_row(rows, name, value).last() == (name, value)),
        rows[i].0 == name ==> with_row(rows, name, value).len() == rows.len(),
{
    lemma_place_of(rows, name);
    if let Some(k) = place_of(rows, name) {
        if k < i {
            assert(rows[k].0 != rows[i].0);
        } else if i < k {
            assert(rows[i].0 != rows[k].0);
        }
    }
}

} // verus!
