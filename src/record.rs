//! A data row: column names mapped to normalized values.
use vstd::prelude::*;
use vstd::string::*;

verus! {

/// The fields of a row as `(column, value)` pairs.
pub type FieldsView = Seq<(Seq<char>, Seq<char>)>;

/// The value of `key` in `fields`, the latest pair for it winning.
pub open spec fn lookup(fields: FieldsView, key: Seq<char>) -> Option<Seq<char>>
    decreases fields.len(),
{
    if fields.len() == 0 {
        None
    } else if fields.last().0 == key {
        Some(fields.last().1)
    } else {
        lookup(fields.drop_last(), key)
    }
}

/// `fields` without the pairs for `key`.
pub open spec fn without_key(fields: FieldsView, key: Seq<char>) -> FieldsView
    decreases fields.len(),
{
    if fields.len() == 0 {
        fields
    } else {
        let rest = without_key(fields.drop_last(), key);
        if fields.last().0 == key {
            rest
        } else {
            rest.push(fields.last())
        }
    }
}

/// `fields` with `key` set to `value`.
pub open spec fn insert_field(fields: FieldsView, key: Seq<char>, value: Seq<char>) -> FieldsView {
    without_key(fields, key).push((key, value))
}

/// No column appears twice.
pub open spec fn keys_distinct(fields: FieldsView) -> bool {
    forall|i: int, j: int| 0 <= i < j < fields.len() ==> fields[i].0 != fields[j].0
}

/// One data row. Each column appears once; a column that the source lacks is absent,
/// which is not the same as present with an empty value.
#[derive(Clone, Debug)]
pub struct CsvRecord {
    data: Vec<(String, String)>,
}

impl CsvRecord {
    pub closed spec fn fields(&self) -> FieldsView {
        self.data@.map_values(|p: (String, String)| (p.0@, p.1@))
    }

    /// The row with no columns.
    pub fn new() -> (r: CsvRecord)
        ensures
            r.fields() == Seq::<(Seq<char>, Seq<char>)>::empty(),
    {
        let r = CsvRecord { data: Vec::new() };
        assert(r.fields() =~= Seq::<(Seq<char>, Seq<char>)>::empty());
        r
    }

    /// Number of columns.
    pub fn len(&self) -> (r: usize)
        ensures
            r == self.fields().len(),
    {
        self.data.len()
    }

    /// The column name and value at position `i`.
    pub fn field(&self, i: usize) -> (r: (&String, &String))
        requires
            i < self.fields().len(),
        ensures
            (r.0@, r.1@) == self.fields()[i as int],
    {
        let p = &self.data[i];
        (&p.0, &p.1)
    }

    /// The value of column `key`, if the row has that column.
    pub fn get(&self, key: &str) -> (r: Option<&String>)
        ensures
            r matches Some(v) ==> lookup(self.fields(), key@) == Some(v@),
            r is None ==> lookup(self.fields(), key@) is None,
    {
        let k = String::from_str(key);
        let mut i: usize = self.data.len();
        assert(self.fields().take(i as int) =~= self.fields());
        while i > 0
            invariant
                i <= self.data@.len(),
                k@ == key@,
                lookup(self.fields(), key@) == lookup(self.fields().take(i as int), key@),
            decreases i,
        {
            assert(self.fields().take(i as int).drop_last() =~= self.fields().take(i - 1));
            if self.data[i - 1].0 == k {
                return Some(&self.data[i - 1].1);
            }
            i = i - 1;
        }
        None
    }

    /// Sets column `key` to `value`, replacing an earlier value of that column.
    pub fn insert(&mut self, key: String, value: String)
        ensures
            final(self).fields() == insert_field(old(self).fields(), key@, value@),
            keys_distinct(old(self).fields()) ==> keys_distinct(final(self).fields()),
    {
        let ghost f = self.fields();
        let mut kept: Vec<(String, String)> = Vec::new();
        let mut i: usize = 0;
        let n = self.data.len();
        while i < n
            invariant
                i <= n,
                n == self.data@.len(),
                f == self.fields(),
                kept@.map_values(|p: (String, String)| (p.0@, p.1@)) == without_key(
                    f.take(i as int),
                    key@,
                ),
            decreases n - i,
        {
            assert(f.take(i + 1).drop_last() =~= f.take(i as int));
            if !(self.data[i].0 == key) {
                let p = (self.data[i].0.clone(), self.data[i].1.clone());
                kept.push(p);
                assert(kept@.map_values(|p: (String, String)| (p.0@, p.1@)) =~= without_key(
                    f.take(i as int),
                    key@,
                ).push(f[i as int]));
            }
            i = i + 1;
        }
        assert(f.take(n as int) =~= f);
        kept.push((key, value));
        self.data = kept;
        assert(self.fields() =~= insert_field(f, key@, value@));
        proof {
            if keys_distinct(f) {
                lemma_without_key_distinct(f, key@);
            }
        }
    }
}

proof fn lemma_without_key_distinct(f: FieldsView, key: Seq<char>)
    requires
        keys_distinct(f),
    ensures
        keys_distinct(without_key(f, key)),
        forall|i: int|
            0 <= i < without_key(f, key).len() ==> #[trigger] without_key(f, key)[i].0 != key,
        forall|i: int|
            0 <= i < without_key(f, key).len() ==> exists|j: int|
                0 <= j < f.len() && f[j] == #[trigger] without_key(f, key)[i],
    decreases f.len(),
{
    if f.len() > 0 {
        let g = f.drop_last();
        assert(keys_distinct(g));
        lemma_without_key_distinct(g, key);
        let w = without_key(g, key);
        assert forall|i: int| 0 <= i < w.len() implies #[trigger] w[i].0 != f.last().0 by {
            let j = choose|j: int| 0 <= j < g.len() && g[j] == w[i];
            assert(f[j] == g[j]);
        }
        assert forall|i: int| 0 <= i < w.len() implies exists|j: int|
            0 <= j < f.len() && f[j] == #[trigger] w[i] by {
            let j = choose|j: int| 0 <= j < g.len() && g[j] == w[i];
            assert(f[j] == w[i]);
        }
    }
}

} // verus!
