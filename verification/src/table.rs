//! Keyed rows in insertion order.
use vstd::prelude::*;

verus! {

/// A row that is found again by a pair of integers.
pub trait Row: Sized {
    /// The key of the row.
    spec fn key(self) -> (u64, u64);

    /// The key of the row.
    fn row_key(&self) -> (r: (u64, u64))
        ensures
            r == self.key(),
    ;
}

/// No two rows have the same key.
pub open spec fn unique_keys<T: Row>(rows: Seq<T>) -> bool {
    forall|i: int, j: int|
        0 <= i < j < rows.len() ==> (#[trigger] rows[i]).key() != (#[trigger] rows[j]).key()
}

/// Some row has the key.
pub open spec fn has_key<T: Row>(rows: Seq<T>, key: (u64, u64)) -> bool {
    exists|i: int| 0 <= i < rows.len() && (#[trigger] rows[i]).key() == key
}

/// The row with the key.
pub open spec fn row_at<T: Row>(rows: Seq<T>, key: (u64, u64)) -> T {
    rows[choose|i: int| 0 <= i < rows.len() && (#[trigger] rows[i]).key() == key]
}

/// The rows by key.
pub open spec fn rows_map<T: Row>(rows: Seq<T>) -> Map<(u64, u64), T> {
    Map::new(|key: (u64, u64)| has_key(rows, key), |key: (u64, u64)| row_at(rows, key))
}

/// Rows with pairwise different keys.
#[derive(Debug)]
pub struct Table<T: Row> {
    rows: Vec<T>,
}

impl<T: Row> View for Table<T> {
    type V = Map<(u64, u64), T>;

    open spec fn view(&self) -> Map<(u64, u64), T> {
        rows_map(self.order())
    }
}

proof fn lemma_row_at<T: Row>(rows: Seq<T>, i: int)
    requires
        unique_keys(rows),
        0 <= i < rows.len(),
    ensures
        rows_map(rows).dom().contains(rows[i].key()),
        rows_map(rows)[rows[i].key()] == rows[i],
{
    let key = rows[i].key();
    assert(has_key(rows, key));
    let k = choose|k: int| 0 <= k < rows.len() && (#[trigger] rows[k]).key() == key;
    if k < i {
        assert(rows[k].key() != rows[i].key());
    } else if i < k {
        assert(rows[i].key() != rows[k].key());
    }
}

/// A row of the map is one of the order.
pub proof fn lemma_row_in_order<T: Row>(rows: Seq<T>, key: (u64, u64)) -> (i: int)
    requires
        unique_keys(rows),
        has_key(rows, key),
    ensures
        0 <= i < rows.len(),
        rows[i] == rows_map(rows)[key],
        rows[i].key() == key,
{
    let i = choose|i: int| 0 <= i < rows.len() && (#[trigger] rows[i]).key() == key;
    lemma_row_at(rows, i);
    i
}

proof fn lemma_map_of_push<T: Row>(rows: Seq<T>, row: T)
    requires
        unique_keys(rows),
        !has_key(rows, row.key()),
    ensures
        unique_keys(rows.push(row)),
        rows_map(rows.push(row)) == rows_map(rows).insert(row.key(), row),
{
    let next = rows.push(row);
    assert forall|i: int, j: int| 0 <= i < j < next.len() implies (#[trigger] next[i]).key() != (
    #[trigger] next[j]).key() by {
        assert(next[i] == rows[i]);
    }
    assert forall|key: (u64, u64)| has_key(next, key) <==> has_key(rows, key) || key == row.key() by {
        if has_key(rows, key) {
            let k = choose|k: int| 0 <= k < rows.len() && (#[trigger] rows[k]).key() == key;
            assert(next[k].key() == key);
        }
        assert(next[rows.len() as int].key() == row.key());
        if has_key(next, key) && key != row.key() {
            let k = choose|k: int| 0 <= k < next.len() && (#[trigger] next[k]).key() == key;
            assert(rows[k].key() == key);
        }
    }
    assert forall|key: (u64, u64)| has_key(next, key) implies #[trigger] rows_map(next)[key]
        == rows_map(rows).insert(row.key(), row)[key] by {
        let k = choose|k: int| 0 <= k < next.len() && (#[trigger] next[k]).key() == key;
        lemma_row_at(next, k);
        if k < rows.len() {
            lemma_row_at(rows, k);
        }
    }
    assert(rows_map(next) =~= rows_map(rows).insert(row.key(), row));
}

proof fn lemma_map_of_update<T: Row>(rows: Seq<T>, at: int, row: T)
    requires
        unique_keys(rows),
        0 <= at < rows.len(),
        rows[at].key() == row.key(),
    ensures
        unique_keys(rows.update(at, row)),
        rows_map(rows.update(at, row)) == rows_map(rows).insert(row.key(), row),
{
    let next = rows.update(at, row);
    assert forall|i: int, j: int| 0 <= i < j < next.len() implies (#[trigger] next[i]).key() != (
    #[trigger] next[j]).key() by {
        assert(rows[i].key() != rows[j].key());
    }
    assert forall|key: (u64, u64)| has_key(next, key) <==> has_key(rows, key) by {
        if has_key(rows, key) {
            let k = choose|k: int| 0 <= k < rows.len() && (#[trigger] rows[k]).key() == key;
            assert(next[k].key() == key);
        }
        if has_key(next, key) {
            let k = choose|k: int| 0 <= k < next.len() && (#[trigger] next[k]).key() == key;
            assert(rows[k].key() == key);
        }
    }
    assert(has_key(rows, row.key())) by {
        assert(rows[at].key() == row.key());
    }
    assert forall|key: (u64, u64)| has_key(next, key) implies #[trigger] rows_map(next)[key]
        == rows_map(rows).insert(row.key(), row)[key] by {
        let k = choose|k: int| 0 <= k < next.len() && (#[trigger] next[k]).key() == key;
        lemma_row_at(next, k);
        lemma_row_at(rows, k);
        if k != at {
            if k < at {
                assert(next[k].key() != next[at].key());
            } else {
                assert(next[at].key() != next[k].key());
            }
        }
    }
    assert(rows_map(next) =~= rows_map(rows).insert(row.key(), row));
}

proof fn lemma_map_of_remove<T: Row>(rows: Seq<T>, at: int)
    requires
        unique_keys(rows),
        0 <= at < rows.len(),
    ensures
        unique_keys(rows.remove(at)),
        rows_map(rows.remove(at)) == rows_map(rows).remove(rows[at].key()),
{
    let next = rows.remove(at);
    let gone = rows[at].key();
    assert forall|i: int, j: int| 0 <= i < j < next.len() implies (#[trigger] next[i]).key() != (
    #[trigger] next[j]).key() by {
        let a = if i < at { i } else { i + 1 };
        let b = if j < at { j } else { j + 1 };
        assert(next[i] == rows[a] && next[j] == rows[b]);
        assert(rows[a].key() != rows[b].key());
    }
    assert forall|key: (u64, u64)| has_key(next, key) <==> has_key(rows, key) && key != gone by {
        if has_key(rows, key) && key != gone {
            let k = choose|k: int| 0 <= k < rows.len() && (#[trigger] rows[k]).key() == key;
            let m = if k < at { k } else { k - 1 };
            assert(next[m].key() == key);
        }
        if has_key(next, key) {
            let k = choose|k: int| 0 <= k < next.len() && (#[trigger] next[k]).key() == key;
            let m = if k < at { k } else { k + 1 };
            assert(rows[m].key() == key);
            if m < at {
                assert(rows[m].key() != rows[at].key());
            } else {
                assert(rows[at].key() != rows[m].key());
            }
        }
    }
    assert forall|key: (u64, u64)| has_key(next, key) implies #[trigger] rows_map(next)[key]
        == rows_map(rows).remove(gone)[key] by {
        let k = choose|k: int| 0 <= k < next.len() && (#[trigger] next[k]).key() == key;
        let m = if k < at { k } else { k + 1 };
        lemma_row_at(next, k);
        lemma_row_at(rows, m);
    }
    assert(rows_map(next) =~= rows_map(rows).remove(gone));
}

impl<T: Row> Table<T> {
    #[verifier::type_invariant]
    spec fn well_formed(self) -> bool {
        unique_keys(self.rows@)
    }

    /// The rows in the order in which their keys came first.
    pub closed spec fn order(&self) -> Seq<T> {
        self.rows@
    }

    /// A table without rows.
    pub fn new() -> (r: Self)
        ensures
            r.order() == Seq::<T>::empty(),
            r@ == Map::<(u64, u64), T>::empty(),
    {
        let rows: Vec<T> = Vec::new();
        proof {
            assert(rows_map(rows@) =~= Map::<(u64, u64), T>::empty());
        }
        Table { rows }
    }

    /// Number of rows.
    pub fn len(&self) -> (r: usize)
        ensures
            r == self.order().len(),
    {
        self.rows.len()
    }

    /// The rows in order.
    pub fn rows(&self) -> (r: &Vec<T>)
        ensures
            r@ == self.order(),
            unique_keys(r@),
    {
        proof {
            use_type_invariant(self);
        }
        &self.rows
    }

    fn position(&self, key: (u64, u64)) -> (r: Option<usize>)
        ensures
            match r {
                Some(i) => i < self.order().len() && self.order()[i as int].key() == key,
                None => !has_key(self.order(), key),
            },
    {
        let mut i: usize = 0;
        while i < self.rows.len()
            invariant
                i <= self.rows.len(),
                forall|j: int| 0 <= j < i ==> (#[trigger] self.rows@[j]).key() != key,
            decreases self.rows.len() - i,
        {
            let found = self.rows[i].row_key();
            if found.0 == key.0 && found.1 == key.1 {
                return Some(i);
            }
            i = i + 1;
        }
        None
    }

    /// The row with the key.
    pub fn get(&self, key: (u64, u64)) -> (r: Option<&T>)
        ensures
            match r {
                Some(row) => self@.dom().contains(key) && self@[key] == *row && row.key() == key,
                None => !self@.dom().contains(key),
            },
    {
        match self.position(key) {
            Some(i) => {
                proof {
                    use_type_invariant(self);
                    lemma_row_at(self.rows@, i as int);
                }
                Some(&self.rows[i])
            },
            None => None,
        }
    }

    /// Puts the row in place of the one with its key, or behind all rows.
    pub fn put(&mut self, row: T)
        ensures
            final(self)@ == old(self)@.insert(row.key(), row),
            !has_key(old(self).order(), row.key()) ==> final(self).order() == old(self).order().push(row),
    {
        proof {
            use_type_invariant(&*self);
        }
        let key = row.row_key();
        let found = self.position(key);
        let mut rows: Vec<T> = Vec::new();
        std::mem::swap(&mut rows, &mut self.rows);
        match found {
            Some(i) => {
                proof {
                    lemma_map_of_update(rows@, i as int, row);
                    assert(has_key(rows@, key)) by {
                        assert(rows@[i as int].key() == key);
                    }
                }
                rows.set(i, row);
            },
            None => {
                proof {
                    lemma_map_of_push(rows@, row);
                }
                rows.push(row);
            },
        }
        self.rows = rows;
    }

    /// Takes out the row with the key.
    pub fn remove(&mut self, key: (u64, u64)) -> (r: Option<T>)
        ensures
            final(self)@ == old(self)@.remove(key),
            match r {
                Some(row) => old(self)@.dom().contains(key) && old(self)@[key] == row,
                None => !old(self)@.dom().contains(key),
            },
    {
        proof {
            use_type_invariant(&*self);
        }
        match self.position(key) {
            Some(i) => {
                let mut rows: Vec<T> = Vec::new();
                std::mem::swap(&mut rows, &mut self.rows);
                proof {
                    lemma_row_at(rows@, i as int);
                    lemma_map_of_remove(rows@, i as int);
                }
                let row = rows.remove(i);
                self.rows = rows;
                Some(row)
            },
            None => {
                assert(self@.remove(key) =~= self@);
                None
            },
        }
    }
}

/// The map that putting rows one after the other gives: of rows with one key
/// the last stays.
pub open spec fn put_all<T: Row>(rows: Seq<T>) -> Map<(u64, u64), T>
    decreases rows.len(),
{
    if rows.len() == 0 {
        Map::empty()
    } else {
        put_all(rows.drop_last()).insert(rows.last().key(), rows.last())
    }
}

/// Puts rows one after the other.
pub fn table_from<T: Row>(rows: Vec<T>) -> (r: Table<T>)
    ensures
        r@ == put_all(rows@),
{
    let mut table: Table<T> = Table::new();
    let ghost all = rows@;
    for row in iter: rows.into_iter()
        invariant
            iter.seq() == all,
            table@ == put_all(all.take(iter.index() as int)),
    {
        proof {
            assert(all.take(iter.index() + 1).drop_last() =~= all.take(iter.index() as int));
        }
        table.put(row);
    }
    assert(all.take(all.len() as int) =~= all);
    table
}

/// Of the rows with one key the last one is in the table that they are put into.
pub proof fn law_last_row_of_a_key_stays<T: Row>(rows: Seq<T>, i: int)
    requires
        0 <= i < rows.len(),
        forall|j: int| i < j < rows.len() ==> (#[trigger] rows[j]).key() != rows[i].key(),
    ensures
        put_all(rows).dom().contains(rows[i].key()),
        put_all(rows)[rows[i].key()] == rows[i],
    decreases rows.len(),
{
    let last = rows.len() - 1;
    if i < last {
        let front = rows.drop_last();
        assert forall|j: int| i < j < front.len() implies (#[trigger] front[j]).key()
            != front[i].key() by {
            assert(rows[j].key() != rows[i].key());
        }
        law_last_row_of_a_key_stays(front, i);
        assert(rows[last].key() != rows[i].key());
    }
}

/// A key is in the table only where a row has it, and with such a row.
pub proof fn law_table_holds_only_its_rows<T: Row>(rows: Seq<T>, key: (u64, u64))
    requires
        put_all(rows).dom().contains(key),
    ensures
        exists|i: int|
            0 <= i < rows.len() && (#[trigger] rows[i]).key() == key && put_all(rows)[key]
                == rows[i],
    decreases rows.len(),
{
    if rows.len() > 0 {
        if rows.last().key() == key {
            assert(rows[rows.len() - 1].key() == key);
        } else {
            let front = rows.drop_last();
            law_table_holds_only_its_rows(front, key);
            let i = choose|i: int|
                0 <= i < front.len() && (#[trigger] front[i]).key() == key && put_all(front)[key]
                    == front[i];
            assert(rows[i].key() == key);
        }
    }
}

} // verus!
