//! A skip list kept as rows of sorted values: the bottom row holds every
//! value, and each value is copied into the rows above it while a coin
//! keeps coming up heads.

use vstd::prelude::*;
use crate::linked_list::insert_sorted;
use crate::sorting::sorted;
use crate::text::{push_char, push_decimal};
use vstd::string::StringExecFns;

verus! {

/// The first position in `s` holding a value greater than `v` (the length
/// of `s` if there is none).
pub open spec fn first_above(s: Seq<i32>, v: i32) -> int
    decreases s.len(),
{
    if s.len() == 0 || s[0] > v {
        0
    } else {
        1 + first_above(s.drop_first(), v)
    }
}

/// A sorted insert puts `v` at the first position holding a greater value.
pub proof fn lemma_insert_sorted_at(s: Seq<i32>, v: i32)
    ensures
        0 <= first_above(s, v) <= s.len(),
        forall|i: int| 0 <= i < first_above(s, v) ==> s[i] <= v,
        first_above(s, v) < s.len() ==> s[first_above(s, v)] > v,
        insert_sorted(s, v) == s.insert(first_above(s, v), v),
    decreases s.len(),
{
    if s.len() == 0 {
        assert(s.insert(0, v) =~= seq![v]);
    } else if s[0] > v {
        assert(s.insert(0, v) =~= seq![v] + s);
    } else {
        let t = s.drop_first();
        lemma_insert_sorted_at(t, v);
        assert forall|i: int| 0 <= i < first_above(s, v) implies s[i] <= v by {
            if i > 0 {
                assert(s[i] == t[i - 1]);
            }
        }
        assert(seq![s[0]] + t.insert(first_above(t, v), v) =~= s.insert(first_above(s, v), v));
    }
}

/// A sorted insert into a sorted sequence is sorted.
pub proof fn lemma_insert_sorted_sorted(s: Seq<i32>, v: i32)
    requires
        sorted(s),
    ensures
        sorted(insert_sorted(s, v)),
{
    lemma_insert_sorted_at(s, v);
    let p = first_above(s, v);
    let r = insert_sorted(s, v);
    assert forall|i: int, j: int| 0 <= i <= j < r.len() implies r[i] <= r[j] by {
        if j < p {
        } else if j == p {
            if i < p {
                assert(s[i] <= v);
            }
        } else if i < p {
            assert(s[i] <= v);
            if p < s.len() {
                assert(s[p] > v);
                assert(s[p] <= s[j - 1]);
            }
        } else if i == p {
            assert(s[p] > v);
            assert(s[p] <= s[j - 1]);
        } else {
            assert(r[i] == s[i - 1] && r[j] == s[j - 1]);
        }
    }
}

/// Inserts `v` into the sorted row `row`, before the first greater value.
fn insert_into_row(row: &mut Vec<i32>, v: i32)
    ensures
        final(row)@ == insert_sorted(old(row)@, v),
{
    proof {
        lemma_insert_sorted_at(old(row)@, v);
    }
    let ghost s = row@;
    let mut p: usize = 0;
    while p < row.len() && row[p] <= v
        invariant
            s == row@,
            p <= first_above(s, v),
            first_above(s, v) <= s.len(),
            forall|i: int| 0 <= i < first_above(s, v) ==> s[i] <= v,
            first_above(s, v) < s.len() ==> s[first_above(s, v)] > v,
        decreases s.len() - p,
    {
        p = p + 1;
    }
    row.insert(p, v);
}

/// The row a level holds after one insert of `v` reached `h` levels.
pub open spec fn row_after(old_rows: Seq<Seq<i32>>, j: int, h: int, v: i32) -> Seq<i32> {
    if j < h {
        insert_sorted(if j < old_rows.len() { old_rows[j] } else { Seq::empty() }, v)
    } else {
        old_rows[j]
    }
}

/// `rows` is `old_rows` after an insert of `v` that reached `h` levels: the
/// lowest `h` rows got `v` (a row past the top is new), the others are as
/// they were.
pub open spec fn reached(old_rows: Seq<Seq<i32>>, rows: Seq<Seq<i32>>, h: int, v: i32) -> bool {
    &&& 1 <= h <= old_rows.len() + 1
    &&& rows.len() == if h > old_rows.len() {
        h
    } else {
        old_rows.len() as int
    }
    &&& forall|j: int| 0 <= j < rows.len() ==> #[trigger] rows[j] == row_after(old_rows, j, h, v)
}

/// The text of the rows, bottom row first: each row on a line of its own
/// after a newline, its values in decimal separated by commas.
pub open spec fn rows_text(rows: Seq<Seq<i32>>) -> Seq<char>
    decreases rows.len(),
{
    if rows.len() == 0 {
        Seq::empty()
    } else {
        rows_text(rows.drop_last()) + seq!['\n'] + row_text(rows.last())
    }
}

/// One row's values in decimal, separated by commas.
pub open spec fn row_text(row: Seq<i32>) -> Seq<char>
    decreases row.len(),
{
    if row.len() == 0 {
        Seq::empty()
    } else if row.len() == 1 {
        crate::text::decimal(row[0] as int)
    } else {
        row_text(row.drop_last()) + seq![','] + crate::text::decimal(row.last() as int)
    }
}

/// Rows of sorted values; the bottom row (index 0) holds every value.
pub struct SkipList {
    list: Vec<Vec<i32>>,
}

impl SkipList {
    /// The rows, bottom first.
    pub closed spec fn rows(&self) -> Seq<Seq<i32>> {
        self.list@.map_values(|r: Vec<i32>| r@)
    }

    /// Every row is sorted.
    pub open spec fn wf(&self) -> bool {
        forall|j: int| 0 <= j < self.rows().len() ==> sorted(#[trigger] self.rows()[j])
    }

    /// An empty skip list.
    pub fn new() -> (r: Self)
        ensures
            r.rows() == Seq::<Seq<i32>>::empty(),
            r.wf(),
    {
        let r = SkipList { list: Vec::new() };
        assert(r.rows() =~= Seq::<Seq<i32>>::empty());
        r
    }

    /// Inserts `data` into the bottom row, then into each row above while a
    /// coin comes up heads; reaching past the top row adds a row holding
    /// `data` alone and stops.
    pub fn insert(&mut self, data: i32)
        requires
            old(self).wf(),
        ensures
            final(self).wf(),
            exists|h: int| #[trigger] reached(old(self).rows(), final(self).rows(), h, data),
    {
        let ghost r0 = self.rows();
        let ghost mut h: int = 0;
        let mut j: usize = 0;
        loop
            invariant_except_break
                j <= r0.len(),
                h == j,
                self.rows().len() == r0.len(),
                forall|k: int| 0 <= k < r0.len() ==> #[trigger] self.rows()[k] == row_after(r0, k, j as int, data),
            invariant
                r0 == old(self).rows(),
                forall|k: int| 0 <= k < self.rows().len() ==> sorted(#[trigger] self.rows()[k]),
            ensures
                reached(r0, self.rows(), h, data),
            decreases r0.len() + 1 - j,
        {
            if j == self.list.len() {
                let ghost before = self.rows();
                let mut row: Vec<i32> = Vec::new();
                row.push(data);
                self.list.push(row);
                proof {
                    assert(self.rows() =~= before.push(seq![data]));
                    assert(insert_sorted(Seq::<i32>::empty(), data) =~= seq![data]);
                    h = j + 1;
                    assert forall|k: int| 0 <= k < self.rows().len() implies #[trigger] self.rows()[k]
                        == row_after(r0, k, h, data) by {
                        if k < j {
                            assert(self.rows()[k] == before[k]);
                        }
                    }
                }
                break;
            }
            let ghost before = self.rows();
            proof {
                lemma_insert_sorted_sorted(before[j as int], data);
            }
            insert_into_row(&mut self.list[j], data);
            assert(self.rows() =~= before.update(j as int, insert_sorted(before[j as int], data)));
            j = j + 1;
            proof {
                h = j as int;
            }
            if rand::random::<bool>() {
                break;
            }
        }
    }

    /// Appends the rows to `writer`, bottom row first, each after a newline
    /// with its values separated by commas; an empty list writes
    /// "Empty skip list!".
    pub fn print(&self, writer: String) -> (r: String)
        ensures
            self.rows().len() == 0 ==> r@ == writer@ + "Empty skip list!"@,
            self.rows().len() > 0 ==> r@ == writer@ + rows_text(self.rows()),
    {
        let mut writer = writer;
        if self.list.len() == 0 {
            writer.append("Empty skip list!");
            return writer;
        }
        let ghost w0 = writer@;
        let ghost rows = self.rows();
        let mut j: usize = 0;
        assert(rows.take(0) =~= Seq::<Seq<i32>>::empty());
        while j < self.list.len()
            invariant
                rows == self.rows(),
                j <= rows.len(),
                writer@ == w0 + rows_text(rows.take(j as int)),
            decreases rows.len() - j,
        {
            let row = &self.list[j];
            let ghost rw = row@;
            assert(rw == rows[j as int]);
            let ghost before = writer@;
            push_char(&mut writer, '\n');
            let mut i: usize = 0;
            assert(rw.take(0) =~= Seq::<i32>::empty());
            while i < row.len()
                invariant
                    rw == row@,
                    i <= rw.len(),
                    writer@ == before + seq!['\n'] + row_text(rw.take(i as int)),
                decreases rw.len() - i,
            {
                if i > 0 {
                    push_char(&mut writer, ',');
                }
                push_decimal(&mut writer, row[i] as i64);
                proof {
                    let t = rw.take(i + 1);
                    assert(t.drop_last() =~= rw.take(i as int));
                    assert(t.last() == rw[i as int]);
                    if i == 0 {
                        assert(t.len() == 1);
                        assert(t[0] == rw[0]);
                    }
                }
                assert(writer@ =~= before + seq!['\n'] + row_text(rw.take(i + 1)));
                i = i + 1;
            }
            assert(rw.take(i as int) =~= rw);
            assert(rows.take(j + 1).drop_last() =~= rows.take(j as int));
            assert(rows.take(j + 1).last() == rw);
            assert(writer@ =~= w0 + rows_text(rows.take(j + 1)));
            j = j + 1;
        }
        assert(rows.take(j as int) =~= rows);
        writer
    }

    /// The rows as vectors, bottom first.
    pub fn rows_vec(&self) -> (r: Vec<Vec<i32>>)
        ensures
            r@.len() == self.rows().len(),
            forall|j: int| 0 <= j < r@.len() ==> (#[trigger] r@[j])@ == self.rows()[j],
    {
        let mut r: Vec<Vec<i32>> = Vec::new();
        let mut j: usize = 0;
        while j < self.list.len()
            invariant
                j <= self.list@.len(),
                r@.len() == j,
                forall|k: int| 0 <= k < j ==> (#[trigger] r@[k])@ == self.rows()[k],
            decreases self.list@.len() - j,
        {
            r.push(vstd::slice::slice_to_vec(self.list[j].as_slice()));
            j = j + 1;
        }
        r
    }
}

} // verus!
