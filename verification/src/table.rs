//! The table engine: schema registration, row storage, multi-key stable
//! sorting, column filtering and line-oriented rendering with unit-aware
//! humanization.

use vstd::prelude::*;
use crate::humanize::{age_text, bytes_text, age_chars, bytes_chars};
use crate::text::{
    dec_of, dec_chars, seq_lt, split_commas, split_commas_chars, trim_spec, trim_chars, lower_of,
    lower_chars, upper_of, upper_chars, untab_spec, untab_chars, pad_cell_spec, push_cell,
    push_all, join_with, join_chars, trim_end_spec, trim_end_chars, chars_eq, chars_cmp,
    copy_chars, to_chars, chars_string,
};

verus! {

/// One typed cell value: text, a plain unsigned integer, a byte count
/// humanized at render time, or an age in whole seconds humanized at
/// render time.
pub enum Value {
    Text(Vec<char>),
    Num(u64),
    Bytes(u64),
    Age(u64),
}

/// The mathematical shape of a `Value`.
pub enum ValueV {
    Text(Seq<char>),
    Num(int),
    Bytes(int),
    Age(int),
}

impl View for Value {
    type V = ValueV;

    open spec fn view(&self) -> ValueV {
        match self {
            Value::Text(s) => ValueV::Text(s@),
            Value::Num(n) => ValueV::Num(*n as int),
            Value::Bytes(b) => ValueV::Bytes(*b as int),
            Value::Age(a) => ValueV::Age(*a as int),
        }
    }
}

/// Whether two values carry the same variant, so that they may meet in one
/// column.
pub open spec fn same_kind(a: ValueV, b: ValueV) -> bool {
    match (a, b) {
        (ValueV::Text(_), ValueV::Text(_)) => true,
        (ValueV::Num(_), ValueV::Num(_)) => true,
        (ValueV::Bytes(_), ValueV::Bytes(_)) => true,
        (ValueV::Age(_), ValueV::Age(_)) => true,
        _ => false,
    }
}

/// Strict order on two values of the same variant: text by code point,
/// the numeric variants numerically.
pub open spec fn value_lt(a: ValueV, b: ValueV) -> bool {
    match (a, b) {
        (ValueV::Text(x), ValueV::Text(y)) => seq_lt(x, y),
        (ValueV::Num(x), ValueV::Num(y)) => x < y,
        (ValueV::Bytes(x), ValueV::Bytes(y)) => x < y,
        (ValueV::Age(x), ValueV::Age(y)) => x < y,
        _ => false,
    }
}

/// The text a value renders to in a data cell.
pub open spec fn value_text(v: ValueV, parseable: bool) -> Seq<char> {
    match v {
        ValueV::Text(s) => s,
        ValueV::Num(n) => dec_of(n),
        ValueV::Bytes(b) => bytes_text(b, parseable),
        ValueV::Age(a) => age_text(a, parseable),
    }
}

/// A sparse mapping from column name to typed value; each row need not
/// populate every declared column.
pub struct Row {
    pub entries: Vec<(Vec<char>, Value)>,
}

/// The map an entry list denotes: the entry nearest the front wins.
pub open spec fn entries_map(es: Seq<(Vec<char>, Value)>) -> Map<Seq<char>, ValueV>
    decreases es.len(),
{
    if es.len() == 0 {
        Map::empty()
    } else {
        entries_map(es.drop_first()).insert(es[0].0@, es[0].1@)
    }
}

impl View for Row {
    type V = Map<Seq<char>, ValueV>;

    open spec fn view(&self) -> Map<Seq<char>, ValueV> {
        entries_map(self.entries@)
    }
}

impl Default for Row {
    /// An empty row.
    fn default() -> (r: Row)
        ensures
            r@ == Map::<Seq<char>, ValueV>::empty(),
    {
        Row { entries: Vec::new() }
    }
}

impl Row {
    fn add_value(&mut self, name: &str, value: Value)
        ensures
            final(self)@ == old(self)@.insert(name@, value@),
    {
        let key = to_chars(name);
        self.entries.insert(0, (key, value));
        proof {
            assert(self.entries@.drop_first() =~= old(self).entries@);
            assert(final(self)@ =~= old(self)@.insert(name@, value@));
        }
    }

    /// Set the named column of this row to a text value.
    pub fn add_str(&mut self, name: &str, value: &str)
        ensures
            final(self)@ == old(self)@.insert(name@, ValueV::Text(value@)),
    {
        let v = to_chars(value);
        self.add_value(name, Value::Text(v));
    }

    /// Set the named column of this row to a plain unsigned integer.
    pub fn add_u64(&mut self, name: &str, value: u64)
        ensures
            final(self)@ == old(self)@.insert(name@, ValueV::Num(value as int)),
    {
        self.add_value(name, Value::Num(value));
    }

    /// Set the named column of this row to a byte count, humanized at
    /// render time.
    pub fn add_bytes(&mut self, name: &str, value: u64)
        ensures
            final(self)@ == old(self)@.insert(name@, ValueV::Bytes(value as int)),
    {
        self.add_value(name, Value::Bytes(value));
    }

    /// Set the named column of this row to an age in whole seconds,
    /// humanized at render time.
    pub fn add_age(&mut self, name: &str, seconds: u64)
        ensures
            final(self)@ == old(self)@.insert(name@, ValueV::Age(seconds as int)),
    {
        self.add_value(name, Value::Age(seconds));
    }

    /// Look the named column up in this row.
    fn get(&self, name: &Vec<char>) -> (r: Option<&Value>)
        ensures
            match r {
                Some(v) => self@.contains_key(name@) && v@ == self@[name@],
                None => !self@.contains_key(name@),
            },
    {
        let mut i: usize = 0;
        proof {
            assert(self.entries@.skip(0) =~= self.entries@);
        }
        while i < self.entries.len()
            invariant
                i <= self.entries@.len(),
                entries_map(self.entries@.skip(i as int)).contains_key(name@) == self@.contains_key(
                    name@,
                ),
                self@.contains_key(name@) ==> entries_map(self.entries@.skip(i as int))[name@]
                    == self@[name@],
            decreases self.entries@.len() - i,
        {
            proof {
                assert(self.entries@.skip(i as int)[0] == self.entries@[i as int]);
                assert(self.entries@.skip(i as int).drop_first() =~= self.entries@.skip(i + 1));
            }
            if chars_eq(&self.entries[i].0, name) {
                return Some(&self.entries[i].1);
            }
            i = i + 1;
        }
        proof {
            assert(self.entries@.skip(i as int) =~= Seq::<(Vec<char>, Value)>::empty());
        }
        None
    }
}

/// One key of a lexicographic sort order: a column name and a direction.
pub struct SortOrder {
    pub column: Vec<char>,
    pub ascending: bool,
}

/// The mathematical shape of a `SortOrder`.
pub struct SortOrderV {
    pub column: Seq<char>,
    pub ascending: bool,
}

impl View for SortOrder {
    type V = SortOrderV;

    open spec fn view(&self) -> SortOrderV {
        SortOrderV { column: self.column@, ascending: self.ascending }
    }
}

/// A row as the sort sees it.
pub type RowMap = Map<Seq<char>, ValueV>;

/// Whether a row holds every column the sort order names.
pub open spec fn row_has_keys(r: RowMap, order: Seq<SortOrderV>) -> bool {
    forall|k: int| 0 <= k < order.len() ==> r.contains_key(#[trigger] order[k].column)
}

/// Whether two rows hold values of the same variant in every sorted
/// column.
pub open spec fn rows_kinds_match(a: RowMap, b: RowMap, order: Seq<SortOrderV>) -> bool {
    forall|k: int|
        0 <= k < order.len() ==> same_kind(
            a[#[trigger] order[k].column],
            b[order[k].column],
        )
}

/// Whether a row set can be sorted under the order: every sorted column is
/// present in every row, with one variant throughout.
pub open spec fn sortable(data: Seq<RowMap>, order: Seq<SortOrderV>) -> bool {
    &&& forall|i: int| 0 <= i < data.len() ==> row_has_keys(#[trigger] data[i], order)
    &&& forall|i: int, j: int|
        0 <= i < data.len() && 0 <= j < data.len() ==> rows_kinds_match(
            #[trigger] data[i],
            #[trigger] data[j],
            order,
        )
}

/// The key comparison one sort key makes between two rows, honouring its
/// direction.
pub open spec fn key_lt(k: SortOrderV, a: RowMap, b: RowMap) -> bool {
    if k.ascending {
        value_lt(a[k.column], b[k.column])
    } else {
        value_lt(b[k.column], a[k.column])
    }
}

/// Strict lexicographic multi-key order on rows: the first key with a
/// non-equal comparison decides.
pub open spec fn row_lt(order: Seq<SortOrderV>, a: RowMap, b: RowMap) -> bool
    decreases order.len(),
{
    if order.len() == 0 {
        false
    } else if key_lt(order[0], a, b) {
        true
    } else if key_lt(order[0], b, a) {
        false
    } else {
        row_lt(order.drop_first(), a, b)
    }
}

/// Two rows the order cannot tell apart.
pub open spec fn row_tie(order: Seq<SortOrderV>, a: RowMap, b: RowMap) -> bool {
    !row_lt(order, a, b) && !row_lt(order, b, a)
}

/// Values of one variant that neither orders below the other are equal.
pub proof fn lemma_value_tie_eq(a: ValueV, b: ValueV)
    requires
        same_kind(a, b),
        !value_lt(a, b),
        !value_lt(b, a),
    ensures
        a == b,
{
    match (a, b) {
        (ValueV::Text(x), ValueV::Text(y)) => {
            if x != y {
                crate::text::lemma_seq_lt_connected(x, y);
            }
        },
        _ => {},
    }
}

/// `value_lt` is transitive on values of one variant.
pub proof fn lemma_value_lt_trans(a: ValueV, b: ValueV, c: ValueV)
    requires
        same_kind(a, b),
        same_kind(b, c),
        value_lt(a, b),
        value_lt(b, c),
    ensures
        value_lt(a, c),
{
    match (a, b) {
        (ValueV::Text(x), ValueV::Text(y)) => {
            match c {
                ValueV::Text(z) => {
                    crate::text::lemma_seq_lt_trans(x, y, z);
                },
                _ => {},
            }
        },
        _ => {},
    }
}

/// `value_lt` is asymmetric.
pub proof fn lemma_value_lt_asym(a: ValueV, b: ValueV)
    requires
        value_lt(a, b),
    ensures
        !value_lt(b, a),
{
    match (a, b) {
        (ValueV::Text(x), ValueV::Text(y)) => {
            crate::text::lemma_seq_lt_asym(x, y);
        },
        _ => {},
    }
}

/// A tie under the order means the rows agree on every sorted column.
pub proof fn lemma_row_tie_keys_eq(order: Seq<SortOrderV>, a: RowMap, b: RowMap)
    requires
        rows_kinds_match(a, b, order),
        row_tie(order, a, b),
    ensures
        forall|k: int| 0 <= k < order.len() ==> a[#[trigger] order[k].column] == b[order[k].column],
    decreases order.len(),
{
    if order.len() > 0 {
        if key_lt(order[0], a, b) {
            assert(row_lt(order, a, b));
        }
        if key_lt(order[0], b, a) {
            assert(row_lt(order, b, a));
        }
        lemma_value_tie_eq(a[order[0].column], b[order[0].column]);
        assert(rows_kinds_match(a, b, order.drop_first())) by {
            assert forall|k: int| 0 <= k < order.drop_first().len() implies same_kind(
                a[#[trigger] order.drop_first()[k].column],
                b[order.drop_first()[k].column],
            ) by {
                assert(order.drop_first()[k] == order[k + 1]);
            }
        }
        lemma_row_tie_keys_eq(order.drop_first(), a, b);
        assert forall|k: int| 0 <= k < order.len() implies a[#[trigger] order[k].column]
            == b[order[k].column] by {
            if k >= 1 {
                assert(order.drop_first()[k - 1] == order[k]);
            }
        }
    }
}

/// Rows that agree on every sorted column compare alike against any third
/// row.
pub proof fn lemma_row_lt_congruence(order: Seq<SortOrderV>, a: RowMap, b: RowMap, c: RowMap)
    requires
        forall|k: int| 0 <= k < order.len() ==> a[#[trigger] order[k].column] == b[order[k].column],
    ensures
        row_lt(order, a, c) == row_lt(order, b, c),
        row_lt(order, c, a) == row_lt(order, c, b),
    decreases order.len(),
{
    if order.len() > 0 {
        assert(a[order[0].column] == b[order[0].column]);
        assert forall|k: int| 0 <= k < order.drop_first().len() implies a[#[trigger] order.drop_first()[k].column]
            == b[order.drop_first()[k].column] by {
            assert(order.drop_first()[k] == order[k + 1]);
        }
        lemma_row_lt_congruence(order.drop_first(), a, b, c);
    }
}

/// `row_lt` is asymmetric.
pub proof fn lemma_row_lt_asym(order: Seq<SortOrderV>, a: RowMap, b: RowMap)
    requires
        row_lt(order, a, b),
    ensures
        !row_lt(order, b, a),
    decreases order.len(),
{
    if order.len() > 0 {
        if key_lt(order[0], a, b) {
            if order[0].ascending {
                lemma_value_lt_asym(a[order[0].column], b[order[0].column]);
            } else {
                lemma_value_lt_asym(b[order[0].column], a[order[0].column]);
            }
        } else {
            lemma_row_lt_asym(order.drop_first(), a, b);
        }
    }
}

/// `row_lt` is transitive on pairwise comparable rows.
pub proof fn lemma_row_lt_trans(order: Seq<SortOrderV>, a: RowMap, b: RowMap, c: RowMap)
    requires
        rows_kinds_match(a, b, order),
        rows_kinds_match(b, c, order),
        rows_kinds_match(a, c, order),
        row_lt(order, a, b),
        row_lt(order, b, c),
    ensures
        row_lt(order, a, c),
    decreases order.len(),
{
    if order.len() > 0 {
        let k = order[0];
        let av = a[k.column];
        let bv = b[k.column];
        let cv = c[k.column];
        if key_lt(k, a, b) {
            if key_lt(k, b, c) {
                if k.ascending {
                    lemma_value_lt_trans(av, bv, cv);
                } else {
                    lemma_value_lt_trans(cv, bv, av);
                }
                assert(key_lt(k, a, c));
            } else {
                lemma_value_tie_eq(bv, cv);
                assert(key_lt(k, a, c));
            }
            if key_lt(k, c, a) {
                if k.ascending {
                    lemma_value_lt_trans(cv, av, cv);
                    lemma_value_lt_asym(cv, cv);
                } else {
                    lemma_value_lt_trans(av, cv, av);
                    lemma_value_lt_asym(av, av);
                }
            }
        } else if key_lt(k, b, a) {
            assert(!row_lt(order, a, b));
        } else {
            lemma_value_tie_eq(av, bv);
            if key_lt(k, b, c) {
                assert(key_lt(k, a, c));
                if key_lt(k, c, a) {
                    if k.ascending {
                        lemma_value_lt_trans(av, cv, av);
                        lemma_value_lt_asym(av, av);
                    } else {
                        lemma_value_lt_trans(cv, av, cv);
                        lemma_value_lt_asym(cv, cv);
                    }
                }
            } else if key_lt(k, c, b) {
                assert(!row_lt(order, b, c));
            } else {
                lemma_value_tie_eq(bv, cv);
                assert(rows_kinds_match(a, b, order.drop_first()) && rows_kinds_match(
                    b,
                    c,
                    order.drop_first(),
                ) && rows_kinds_match(a, c, order.drop_first())) by {
                    assert(forall|m: int| 0 <= m < order.drop_first().len() ==> order.drop_first()[m]
                        == order[m + 1]);
                }
                lemma_row_lt_trans(order.drop_first(), a, b, c);
                assert(row_lt(order, a, c));
            }
        }
    }
}

/// A tie followed by a strict comparison is strict.
pub proof fn lemma_row_tie_lt_trans(order: Seq<SortOrderV>, a: RowMap, b: RowMap, c: RowMap)
    requires
        rows_kinds_match(a, b, order),
        row_tie(order, a, b),
        row_lt(order, b, c),
    ensures
        row_lt(order, a, c),
{
    lemma_row_tie_keys_eq(order, a, b);
    lemma_row_lt_congruence(order, a, b, c);
}

/// Where a stable insertion places row index `k` in an already sorted
/// index sequence: before the first entry whose row orders above it.
pub open spec fn insert_idx(order: Seq<SortOrderV>, rows: Seq<RowMap>, sorted: Seq<int>, k: int) -> Seq<int>
    decreases sorted.len(),
{
    if sorted.len() == 0 {
        seq![k]
    } else if row_lt(order, rows[k], rows[sorted[0]]) {
        seq![k] + sorted
    } else {
        seq![sorted[0]] + insert_idx(order, rows, sorted.drop_first(), k)
    }
}

/// The stable sort of the first `n` row indices.
pub open spec fn sort_idx_upto(order: Seq<SortOrderV>, rows: Seq<RowMap>, n: int) -> Seq<int>
    decreases n,
{
    if n <= 0 {
        Seq::<int>::empty()
    } else {
        insert_idx(order, rows, sort_idx_upto(order, rows, n - 1), n - 1)
    }
}

/// The stable sort of all row indices under the multi-key order.
pub open spec fn sort_idx(order: Seq<SortOrderV>, rows: Seq<RowMap>) -> Seq<int> {
    sort_idx_upto(order, rows, rows.len() as int)
}

/// An index sequence arranged so no row orders below an earlier one.
pub open spec fn sorted_perm(order: Seq<SortOrderV>, rows: Seq<RowMap>, s: Seq<int>) -> bool {
    forall|p: int, q: int|
        0 <= p < q < s.len() ==> !row_lt(order, rows[#[trigger] s[q]], rows[#[trigger] s[p]])
}

/// An index sequence in which tied rows keep their original order.
pub open spec fn stable_perm(order: Seq<SortOrderV>, rows: Seq<RowMap>, s: Seq<int>) -> bool {
    forall|p: int, q: int|
        0 <= p < q < s.len() && row_tie(order, rows[#[trigger] s[p]], rows[#[trigger] s[q]])
            ==> s[p] < s[q]
}

/// Indices all within range.
pub open spec fn idx_in_range(s: Seq<int>, n: int) -> bool {
    forall|j: int| 0 <= j < s.len() ==> 0 <= #[trigger] s[j] < n
}

/// No index repeated.
pub open spec fn idx_distinct(s: Seq<int>) -> bool {
    forall|p: int, q: int| 0 <= p < q < s.len() ==> #[trigger] s[p] != #[trigger] s[q]
}

proof fn lemma_insert_idx_basic(order: Seq<SortOrderV>, rows: Seq<RowMap>, sorted: Seq<int>, k: int)
    ensures
        insert_idx(order, rows, sorted, k).len() == sorted.len() + 1,
        forall|v: int|
            #![trigger insert_idx(order, rows, sorted, k).contains(v)]
            (insert_idx(order, rows, sorted, k).contains(v) <==> (sorted.contains(v) || v == k)),
        idx_distinct(sorted) && !sorted.contains(k) ==> idx_distinct(insert_idx(order, rows, sorted, k)),
    decreases sorted.len(),
{
    let out = insert_idx(order, rows, sorted, k);
    if sorted.len() == 0 {
        assert forall|v: int| out.contains(v) <==> (sorted.contains(v) || v == k) by {
            if v == k {
                assert(out[0] == k);
            }
        }
    } else if row_lt(order, rows[k], rows[sorted[0]]) {
        assert forall|v: int| out.contains(v) <==> (sorted.contains(v) || v == k) by {
            if out.contains(v) {
                let j = choose|j: int| 0 <= j < out.len() && out[j] == v;
                if j == 0 {
                } else {
                    assert(sorted[j - 1] == v);
                }
            }
            if sorted.contains(v) {
                let j = choose|j: int| 0 <= j < sorted.len() && sorted[j] == v;
                assert(out[j + 1] == v);
            }
            if v == k {
                assert(out[0] == v);
            }
        }
        if idx_distinct(sorted) && !sorted.contains(k) {
            assert forall|p: int, q: int| 0 <= p < q < out.len() implies out[p] != out[q] by {
                if p == 0 {
                    assert(sorted[q - 1] == out[q]);
                    assert(sorted.contains(out[q]));
                }
            }
        }
    } else {
        let rest = sorted.drop_first();
        lemma_insert_idx_basic(order, rows, rest, k);
        let sub = insert_idx(order, rows, rest, k);
        assert(out == seq![sorted[0]] + sub);
        assert forall|v: int| out.contains(v) <==> (sorted.contains(v) || v == k) by {
            if out.contains(v) {
                let j = choose|j: int| 0 <= j < out.len() && out[j] == v;
                if j == 0 {
                    assert(sorted[0] == v);
                } else {
                    assert(sub[j - 1] == v);
                    assert(sub.contains(v));
                    if rest.contains(v) {
                        let m = choose|m: int| 0 <= m < rest.len() && rest[m] == v;
                        assert(sorted[m + 1] == v);
                    }
                }
            }
            if sorted.contains(v) {
                let j = choose|j: int| 0 <= j < sorted.len() && sorted[j] == v;
                if j == 0 {
                    assert(out[0] == v);
                } else {
                    assert(rest[j - 1] == v);
                    assert(rest.contains(v));
                    assert(sub.contains(v));
                    let m = choose|m: int| 0 <= m < sub.len() && sub[m] == v;
                    assert(out[m + 1] == v);
                }
            }
            if v == k {
                assert(insert_idx(order, rows, rest, k).contains(v) <==> (rest.contains(v) || v
                    == k)) by {
                    lemma_insert_idx_basic(order, rows, rest, k);
                }
                assert(sub.contains(v));
                let m = choose|m: int| 0 <= m < sub.len() && sub[m] == v;
                assert(out[m + 1] == v);
            }
        }
        if idx_distinct(sorted) && !sorted.contains(k) {
            assert forall|p: int, q: int| 0 <= p < q < rest.len() implies rest[p] != rest[q] by {
                assert(rest[p] == sorted[p + 1]);
                assert(rest[q] == sorted[q + 1]);
            }
            assert(idx_distinct(rest));
            assert(!rest.contains(k)) by {
                if rest.contains(k) {
                    let m = choose|m: int| 0 <= m < rest.len() && rest[m] == k;
                    assert(sorted[m + 1] == k);
                    assert(sorted.contains(k));
                }
            }
            assert forall|p: int, q: int| 0 <= p < q < out.len() implies out[p] != out[q] by {
                if p == 0 {
                    assert(out[q] == sub[q - 1]);
                    assert(sub.contains(out[q]));
                    if out[q] == sorted[0] {
                        if rest.contains(sorted[0]) {
                            let m = choose|m: int| 0 <= m < rest.len() && rest[m] == sorted[0];
                            assert(sorted[m + 1] == sorted[0]);
                        } else {
                            assert(sorted[0] == k);
                            assert(sorted.contains(k));
                        }
                    }
                }
            }
        }
    }
}

proof fn lemma_insert_idx_order(order: Seq<SortOrderV>, rows: Seq<RowMap>, sorted: Seq<int>, k: int)
    requires
        sortable(rows, order),
        idx_in_range(sorted, rows.len() as int),
        0 <= k < rows.len(),
        sorted_perm(order, rows, sorted),
        stable_perm(order, rows, sorted),
        forall|j: int| 0 <= j < sorted.len() ==> #[trigger] sorted[j] < k,
    ensures
        sorted_perm(order, rows, insert_idx(order, rows, sorted, k)),
        stable_perm(order, rows, insert_idx(order, rows, sorted, k)),
        idx_in_range(insert_idx(order, rows, sorted, k), rows.len() as int),
        forall|j: int|
            0 <= j < insert_idx(order, rows, sorted, k).len() ==> #[trigger] insert_idx(
                order,
                rows,
                sorted,
                k,
            )[j] <= k,
    decreases sorted.len(),
{
    let out = insert_idx(order, rows, sorted, k);
    lemma_insert_idx_basic(order, rows, sorted, k);
    if sorted.len() == 0 {
    } else if row_lt(order, rows[k], rows[sorted[0]]) {
        assert forall|p: int, q: int| 0 <= p < q < out.len() implies !row_lt(
            order,
            rows[#[trigger] out[q]],
            rows[#[trigger] out[p]],
        ) by {
            if p == 0 {
                let e = out[q];
                assert(e == sorted[q - 1]);
                if row_lt(order, rows[e], rows[k]) {
                    lemma_row_lt_trans(order, rows[e], rows[k], rows[sorted[0]]);
                    if q - 1 > 0 {
                        assert(!row_lt(order, rows[sorted[q - 1]], rows[sorted[0]]));
                    } else {
                        lemma_row_lt_asym(order, rows[e], rows[sorted[0]]);
                    }
                }
            } else {
                assert(out[p] == sorted[p - 1] && out[q] == sorted[q - 1]);
            }
        }
        assert forall|p: int, q: int|
            0 <= p < q < out.len() && row_tie(order, rows[#[trigger] out[p]], rows[#[trigger] out[q]])
            implies out[p] < out[q] by {
            if p == 0 {
                let e = out[q];
                assert(e == sorted[q - 1]);
                if q - 1 == 0 {
                    assert(row_lt(order, rows[k], rows[e]));
                } else {
                    lemma_row_tie_lt_trans(order, rows[e], rows[k], rows[sorted[0]]);
                    assert(!row_lt(order, rows[sorted[q - 1]], rows[sorted[0]]));
                }
            } else {
                assert(out[p] == sorted[p - 1] && out[q] == sorted[q - 1]);
            }
        }
    } else {
        let rest = sorted.drop_first();
        assert forall|j: int| 0 <= j < rest.len() implies 0 <= #[trigger] rest[j] < rows.len()
            && rest[j] < k by {
            assert(rest[j] == sorted[j + 1]);
        }
        assert(sorted_perm(order, rows, rest)) by {
            assert forall|p: int, q: int| 0 <= p < q < rest.len() implies !row_lt(
                order,
                rows[#[trigger] rest[q]],
                rows[#[trigger] rest[p]],
            ) by {
                assert(rest[p] == sorted[p + 1] && rest[q] == sorted[q + 1]);
            }
        }
        assert(stable_perm(order, rows, rest)) by {
            assert forall|p: int, q: int|
                0 <= p < q < rest.len() && row_tie(
                    order,
                    rows[#[trigger] rest[p]],
                    rows[#[trigger] rest[q]],
                ) implies rest[p] < rest[q] by {
                assert(rest[p] == sorted[p + 1] && rest[q] == sorted[q + 1]);
            }
        }
        lemma_insert_idx_order(order, rows, rest, k);
        lemma_insert_idx_basic(order, rows, rest, k);
        let sub = insert_idx(order, rows, rest, k);
        assert forall|p: int, q: int| 0 <= p < q < out.len() implies !row_lt(
            order,
            rows[#[trigger] out[q]],
            rows[#[trigger] out[p]],
        ) by {
            if p == 0 {
                let e = out[q];
                assert(e == sub[q - 1]);
                assert(sub.contains(e));
                if rest.contains(e) {
                    let m = choose|m: int| 0 <= m < rest.len() && rest[m] == e;
                    assert(sorted[m + 1] == e);
                    assert(!row_lt(order, rows[e], rows[sorted[0]]));
                } else {
                    assert(e == k);
                    assert(!row_lt(order, rows[k], rows[sorted[0]]));
                }
            } else {
                assert(out[p] == sub[p - 1] && out[q] == sub[q - 1]);
            }
        }
        assert forall|p: int, q: int|
            0 <= p < q < out.len() && row_tie(order, rows[#[trigger] out[p]], rows[#[trigger] out[q]])
            implies out[p] < out[q] by {
            if p == 0 {
                let e = out[q];
                assert(e == sub[q - 1]);
                assert(sub.contains(e));
                if rest.contains(e) {
                    let m = choose|m: int| 0 <= m < rest.len() && rest[m] == e;
                    assert(sorted[m + 1] == e);
                    assert(row_tie(order, rows[sorted[0]], rows[e]));
                    assert(0 < m + 1 < sorted.len());
                    assert(sorted[0] < sorted[m + 1]);
                } else {
                    assert(e == k);
                    assert(sorted[0] < k);
                }
            } else {
                assert(out[p] == sub[p - 1] && out[q] == sub[q - 1]);
            }
        }
    }
}

proof fn lemma_sort_idx_upto_basic(order: Seq<SortOrderV>, rows: Seq<RowMap>, n: int)
    ensures
        sort_idx_upto(order, rows, n).len() == (if n <= 0 { 0int } else { n }),
        forall|v: int| sort_idx_upto(order, rows, n).contains(v) <==> 0 <= v < n,
        idx_distinct(sort_idx_upto(order, rows, n)),
    decreases n,
{
    if n > 0 {
        lemma_sort_idx_upto_basic(order, rows, n - 1);
        let prev = sort_idx_upto(order, rows, n - 1);
        lemma_insert_idx_basic(order, rows, prev, n - 1);
        assert forall|v: int| sort_idx_upto(order, rows, n).contains(v) <==> 0 <= v < n by {
            assert(insert_idx(order, rows, prev, n - 1).contains(v) <==> (prev.contains(v) || v == n
                - 1));
            assert(prev.contains(v) <==> 0 <= v < n - 1);
        }
        assert(!prev.contains(n - 1)) by {
            assert(prev.contains(n - 1) <==> 0 <= n - 1 < n - 1);
        }
    }
}

proof fn lemma_sort_idx_upto_order(order: Seq<SortOrderV>, rows: Seq<RowMap>, n: int)
    requires
        sortable(rows, order),
        n <= rows.len(),
    ensures
        sorted_perm(order, rows, sort_idx_upto(order, rows, n)),
        stable_perm(order, rows, sort_idx_upto(order, rows, n)),
        idx_in_range(sort_idx_upto(order, rows, n), rows.len() as int),
    decreases n,
{
    if n > 0 {
        lemma_sort_idx_upto_order(order, rows, n - 1);
        lemma_sort_idx_upto_basic(order, rows, n - 1);
        let prev = sort_idx_upto(order, rows, n - 1);
        assert forall|j: int| 0 <= j < prev.len() implies #[trigger] prev[j] < n - 1 by {
            assert(prev.contains(prev[j]));
        }
        lemma_insert_idx_order(order, rows, prev, n - 1);
    }
}

/// The sort assigns every row exactly one output position: the index
/// sequence has one entry per row, each in range, none repeated.
pub proof fn lemma_sort_idx_permutation(order: Seq<SortOrderV>, rows: Seq<RowMap>)
    ensures
        sort_idx(order, rows).len() == rows.len(),
        forall|v: int| sort_idx(order, rows).contains(v) <==> 0 <= v < rows.len(),
        idx_distinct(sort_idx(order, rows)),
{
    lemma_sort_idx_upto_basic(order, rows, rows.len() as int);
}

/// The sort is lexicographic: under a sortable row set, no row of the
/// output orders below an earlier one; the first sort key with a
/// non-equal comparison decides, per `row_lt`.
pub proof fn lemma_sort_idx_sorted(order: Seq<SortOrderV>, rows: Seq<RowMap>)
    requires
        sortable(rows, order),
    ensures
        sorted_perm(order, rows, sort_idx(order, rows)),
{
    lemma_sort_idx_upto_order(order, rows, rows.len() as int);
}

/// The sort is stable: rows the order cannot tell apart keep their
/// insertion order.
pub proof fn lemma_sort_idx_stable(order: Seq<SortOrderV>, rows: Seq<RowMap>)
    requires
        sortable(rows, order),
    ensures
        stable_perm(order, rows, sort_idx(order, rows)),
{
    lemma_sort_idx_upto_order(order, rows, rows.len() as int);
}

/// The views of a sort-order vector.
pub open spec fn orders_v(s: Seq<SortOrder>) -> Seq<SortOrderV> {
    s.map(|i: int, o: SortOrder| o@)
}

/// The views of a row vector.
pub open spec fn rows_v(s: Seq<Row>) -> Seq<RowMap> {
    s.map(|i: int, r: Row| r@)
}

/// Strict order on two values of one variant.
fn value_lt_exec(a: &Value, b: &Value) -> (r: bool)
    requires
        same_kind(a@, b@),
    ensures
        r == value_lt(a@, b@),
{
    match (a, b) {
        (Value::Text(x), Value::Text(y)) => chars_cmp(x, y) == -1,
        (Value::Num(x), Value::Num(y)) => x < y,
        (Value::Bytes(x), Value::Bytes(y)) => x < y,
        (Value::Age(x), Value::Age(y)) => x < y,
        _ => false,
    }
}

/// Strict multi-key order on two rows that hold all sorted columns with
/// matching variants.
fn row_lt_exec(order: &Vec<SortOrder>, a: &Row, b: &Row) -> (r: bool)
    requires
        row_has_keys(a@, orders_v(order@)),
        row_has_keys(b@, orders_v(order@)),
        rows_kinds_match(a@, b@, orders_v(order@)),
    ensures
        r == row_lt(orders_v(order@), a@, b@),
{
    let ghost ov = orders_v(order@);
    let mut i: usize = 0;
    proof {
        assert(ov.skip(0) =~= ov);
    }
    while i < order.len()
        invariant_except_break
            i <= order@.len(),
            ov == orders_v(order@),
            row_has_keys(a@, ov),
            row_has_keys(b@, ov),
            rows_kinds_match(a@, b@, ov),
            row_lt(ov, a@, b@) == row_lt(ov.skip(i as int), a@, b@),
        ensures
            row_lt(ov, a@, b@) == (i < order@.len()),
        decreases order@.len() - i,
    {
        proof {
            assert(ov[i as int] == order@[i as int]@);
            assert(ov.skip(i as int)[0] == ov[i as int]);
            assert(ov.skip(i as int).drop_first() =~= ov.skip(i + 1));
        }
        let k = &order[i];
        let av = a.get(&k.column).unwrap();
        let bv = b.get(&k.column).unwrap();
        let (x, y) = if k.ascending {
            (av, bv)
        } else {
            (bv, av)
        };
        if value_lt_exec(x, y) {
            break ;
        }
        if value_lt_exec(y, x) {
            proof {
                assert(!row_lt(ov.skip(i as int), a@, b@));
            }
            return false;
        }
        i = i + 1;
    }
    i < order.len()
}

proof fn lemma_insert_idx_at(
    order: Seq<SortOrderV>,
    rows: Seq<RowMap>,
    sorted: Seq<int>,
    k: int,
    p: int,
)
    requires
        0 <= p <= sorted.len(),
        forall|j: int| 0 <= j < p ==> !row_lt(order, rows[k], rows[#[trigger] sorted[j]]),
        p < sorted.len() ==> row_lt(order, rows[k], rows[sorted[p]]),
    ensures
        insert_idx(order, rows, sorted, k) == sorted.take(p) + seq![k] + sorted.skip(p),
    decreases sorted.len(),
{
    if sorted.len() == 0 {
        assert(insert_idx(order, rows, sorted, k) =~= sorted.take(p) + seq![k] + sorted.skip(p));
    } else if p == 0 {
        assert(row_lt(order, rows[k], rows[sorted[0]]));
        assert(sorted.skip(0) =~= sorted);
        assert(insert_idx(order, rows, sorted, k) =~= sorted.take(0) + seq![k] + sorted.skip(0));
    } else {
        assert(!row_lt(order, rows[k], rows[sorted[0]]));
        let rest = sorted.drop_first();
        assert forall|j: int| 0 <= j < p - 1 implies !row_lt(
            order,
            rows[k],
            rows[#[trigger] rest[j]],
        ) by {
            assert(rest[j] == sorted[j + 1]);
        }
        if p - 1 < rest.len() {
            assert(rest[p - 1] == sorted[p]);
        }
        lemma_insert_idx_at(order, rows, rest, k, p - 1);
        assert(insert_idx(order, rows, sorted, k) =~= sorted.take(p) + seq![k] + sorted.skip(p));
    }
}

/// The order in which the rows of `data` are rendered under `order`: the
/// stable multi-key sort of their indices.
fn sort_perm(data: &Vec<Row>, order: &Vec<SortOrder>) -> (perm: Vec<usize>)
    requires
        sortable(rows_v(data@), orders_v(order@)),
    ensures
        perm@.map_values(|u: usize| u as int) == sort_idx(orders_v(order@), rows_v(data@)),
        perm@.len() == data@.len(),
        forall|j: int| 0 <= j < perm@.len() ==> #[trigger] perm@[j] < data@.len(),
{
    let ghost go = orders_v(order@);
    let ghost grows = rows_v(data@);
    let mut perm: Vec<usize> = Vec::new();
    let mut k: usize = 0;
    proof {
        assert(perm@.map_values(|u: usize| u as int) =~= sort_idx_upto(go, grows, 0));
    }
    while k < data.len()
        invariant
            k <= data@.len(),
            go == orders_v(order@),
            grows == rows_v(data@),
            sortable(grows, go),
            perm@.len() == k,
            perm@.map_values(|u: usize| u as int) == sort_idx_upto(go, grows, k as int),
            forall|j: int| 0 <= j < perm@.len() ==> #[trigger] perm@[j] < k,
        decreases data@.len() - k,
    {
        let ghost sorted = perm@.map_values(|u: usize| u as int);
        let mut p: usize = 0;
        loop
            invariant
                p <= perm@.len(),
                k < data@.len(),
                go == orders_v(order@),
                grows == rows_v(data@),
                sortable(grows, go),
                perm@.len() == k,
                sorted == perm@.map_values(|u: usize| u as int),
                forall|j: int| 0 <= j < perm@.len() ==> #[trigger] perm@[j] < k,
                forall|j: int| 0 <= j < p ==> !row_lt(go, grows[k as int], grows[#[trigger] sorted[j]]),
            ensures
                p <= perm@.len(),
                forall|j: int| 0 <= j < p ==> !row_lt(go, grows[k as int], grows[#[trigger] sorted[j]]),
                p < perm@.len() ==> row_lt(go, grows[k as int], grows[sorted[p as int]]),
            decreases perm@.len() - p,
        {
            if p == perm.len() {
                break ;
            }
            let pi = perm[p];
            proof {
                assert(grows[pi as int] == data@[pi as int]@);
                assert(grows[k as int] == data@[k as int]@);
                assert(sorted[p as int] == perm@[p as int] as int);
            }
            if row_lt_exec(order, &data[k], &data[pi]) {
                break ;
            }
            p = p + 1;
        }
        proof {
            lemma_insert_idx_at(go, grows, sorted, k as int, p as int);
        }
        perm.insert(p, k);
        k = k + 1;
        proof {
            assert(perm@.map_values(|u: usize| u as int) =~= sort_idx_upto(go, grows, k as int));
        }
    }
    proof {
        assert(perm@.map_values(|u: usize| u as int) == sort_idx(go, grows));
        lemma_sort_idx_permutation(go, grows);
        assert forall|j: int| 0 <= j < perm@.len() implies #[trigger] perm@[j] < data@.len() by {
            assert(perm@.map_values(|u: usize| u as int)[j] == perm@[j] as int);
            assert(sort_idx(go, grows).contains(sort_idx(go, grows)[j]));
        }
    }
    perm
}

/// A declared output column: case-sensitive name as declared, display
/// width, and whether it shows when no output filter is given.
pub struct Column {
    pub name: Vec<char>,
    pub width: usize,
    pub default: bool,
}

/// The mathematical shape of a `Column`.
pub struct ColumnV {
    pub name: Seq<char>,
    pub width: int,
    pub default: bool,
}

impl View for Column {
    type V = ColumnV;

    open spec fn view(&self) -> ColumnV {
        ColumnV { name: self.name@, width: self.width as int, default: self.default }
    }
}

/// The views of a column vector.
pub open spec fn cols_v(s: Seq<Column>) -> Seq<ColumnV> {
    s.map(|i: int, c: Column| c@)
}

/// The first declared column of the given name, if any.
pub open spec fn find_col(cols: Seq<ColumnV>, name: Seq<char>) -> Option<ColumnV>
    decreases cols.len(),
{
    if cols.len() == 0 {
        None
    } else if cols[0].name == name {
        Some(cols[0])
    } else {
        find_col(cols.drop_first(), name)
    }
}

/// The columns that show by default, in declaration order.
pub open spec fn visible_cols(cols: Seq<ColumnV>) -> Seq<ColumnV>
    decreases cols.len(),
{
    if cols.len() == 0 {
        Seq::<ColumnV>::empty()
    } else if cols.last().default {
        visible_cols(cols.drop_last()).push(cols.last())
    } else {
        visible_cols(cols.drop_last())
    }
}

/// Where a name lands in a sorted name list: after every name not above
/// it.
pub open spec fn insert_name(s: Seq<Seq<char>>, n: Seq<char>) -> Seq<Seq<char>>
    decreases s.len(),
{
    if s.len() == 0 {
        seq![n]
    } else if seq_lt(n, s[0]) {
        seq![n] + s
    } else {
        seq![s[0]] + insert_name(s.drop_first(), n)
    }
}

/// A name list sorted by code point, equal names kept together.
pub open spec fn sort_names_spec(s: Seq<Seq<char>>) -> Seq<Seq<char>>
    decreases s.len(),
{
    if s.len() == 0 {
        Seq::<Seq<char>>::empty()
    } else {
        insert_name(sort_names_spec(s.drop_last()), s.last())
    }
}

proof fn lemma_insert_name_at(s: Seq<Seq<char>>, n: Seq<char>, p: int)
    requires
        0 <= p <= s.len(),
        forall|j: int| 0 <= j < p ==> !seq_lt(n, #[trigger] s[j]),
        p < s.len() ==> seq_lt(n, s[p]),
    ensures
        insert_name(s, n) == s.take(p) + seq![n] + s.skip(p),
    decreases s.len(),
{
    if s.len() == 0 {
        assert(insert_name(s, n) =~= s.take(p) + seq![n] + s.skip(p));
    } else if p == 0 {
        assert(s.skip(0) =~= s);
        assert(insert_name(s, n) =~= s.take(0) + seq![n] + s.skip(0));
    } else {
        let rest = s.drop_first();
        assert forall|j: int| 0 <= j < p - 1 implies !seq_lt(n, #[trigger] rest[j]) by {
            assert(rest[j] == s[j + 1]);
        }
        if p - 1 < rest.len() {
            assert(rest[p - 1] == s[p]);
        }
        lemma_insert_name_at(rest, n, p - 1);
        assert(insert_name(s, n) =~= s.take(p) + seq![n] + s.skip(p));
    }
}

/// Insert a name into an already sorted vector, after its equals.
fn insert_sorted_name(v: &mut Vec<Vec<char>>, n: Vec<char>)
    ensures
        final(v).deep_view() == insert_name(old(v).deep_view(), n@),
{
    let ghost dv = v.deep_view();
    let mut p: usize = 0;
    loop
        invariant
            p <= v@.len(),
            dv == v.deep_view(),
            forall|j: int| 0 <= j < p ==> !seq_lt(n@, #[trigger] dv[j]),
        ensures
            p <= v@.len(),
            dv == v.deep_view(),
            forall|j: int| 0 <= j < p ==> !seq_lt(n@, #[trigger] dv[j]),
            p < v@.len() ==> seq_lt(n@, dv[p as int]),
        decreases v@.len() - p,
    {
        if p == v.len() {
            break ;
        }
        proof {
            assert(dv[p as int] == v@[p as int]@);
        }
        if chars_cmp(&n, &v[p]) == -1 {
            break ;
        }
        p = p + 1;
    }
    proof {
        lemma_insert_name_at(dv, n@, p as int);
    }
    v.insert(p, n);
    proof {
        assert(v.deep_view() =~~= dv.take(p as int) + seq![n@] + dv.skip(p as int));
    }
}

/// Sort a vector of names by code point.
fn sort_names(v: Vec<Vec<char>>) -> (r: Vec<Vec<char>>)
    ensures
        r.deep_view() == sort_names_spec(v.deep_view()),
{
    let ghost dv = v.deep_view();
    let mut r: Vec<Vec<char>> = Vec::new();
    let mut i: usize = 0;
    proof {
        assert(r.deep_view() =~~= sort_names_spec(dv.take(0)));
    }
    while i < v.len()
        invariant
            i <= v@.len(),
            dv == v.deep_view(),
            r.deep_view() == sort_names_spec(dv.take(i as int)),
        decreases v@.len() - i,
    {
        let n = copy_chars(&v[i]);
        proof {
            assert(n@ == dv[i as int]);
            assert(dv.take(i + 1).drop_last() =~= dv.take(i as int));
            assert(dv.take(i + 1).last() == dv[i as int]);
        }
        insert_sorted_name(&mut r, n);
        i = i + 1;
    }
    proof {
        assert(dv.take(dv.len() as int) =~= dv);
    }
    r
}

/// The immutable schema of a table: render flags, declared columns,
/// optional output filter, optional sort order.
pub struct TableShape {
    pub header: bool,
    pub tabsep: bool,
    pub parseable: bool,
    pub outputs: Seq<ColumnV>,
    pub output_filter: Option<Seq<Seq<char>>>,
    pub sort_order: Option<Seq<SortOrderV>>,
}

/// The view of an optional filter list.
pub open spec fn filter_v(f: Option<Vec<Vec<char>>>) -> Option<Seq<Seq<char>>> {
    match f {
        Some(v) => Some(v.deep_view()),
        None => None,
    }
}

/// The view of an optional sort order.
pub open spec fn order_opt_v(o: Option<Vec<SortOrder>>) -> Option<Seq<SortOrderV>> {
    match o {
        Some(v) => Some(orders_v(v@)),
        None => None,
    }
}

/// Accumulates a table schema before rows exist: columns, filter, sort
/// order and render flags.
pub struct TableBuilder {
    pub header: bool,
    pub tabsep: bool,
    pub parseable: bool,
    pub outputs: Vec<Column>,
    pub output_filter: Option<Vec<Vec<char>>>,
    pub sort_order: Option<Vec<SortOrder>>,
}

impl View for TableBuilder {
    type V = TableShape;

    open spec fn view(&self) -> TableShape {
        TableShape {
            header: self.header,
            tabsep: self.tabsep,
            parseable: self.parseable,
            outputs: cols_v(self.outputs@),
            output_filter: filter_v(self.output_filter),
            sort_order: order_opt_v(self.sort_order),
        }
    }
}

impl Default for TableBuilder {
    /// A builder with a header, fixed-width human-readable output, no
    /// columns, no filter and no sort order.
    fn default() -> (r: TableBuilder)
        ensures
            r@ == (TableShape {
                header: true,
                tabsep: false,
                parseable: false,
                outputs: Seq::<ColumnV>::empty(),
                output_filter: None,
                sort_order: None,
            }),
    {
        let r = TableBuilder {
            header: true,
            tabsep: false,
            parseable: false,
            outputs: Vec::new(),
            output_filter: None,
            sort_order: None,
        };
        proof {
            assert(cols_v(r.outputs@) =~= Seq::<ColumnV>::empty());
        }
        r
    }
}

/// A comma-separated column list, each field trimmed and lower-cased.
pub open spec fn cols_of_list(s: Seq<char>) -> Seq<Seq<char>> {
    split_commas(s).map(|i: int, t: Seq<char>| lower_of(trim_spec(t)))
}

/// A comma-separated sort list, each field trimmed and lower-cased, all
/// with one direction.
pub open spec fn sort_list_of(s: Seq<char>, ascending: bool) -> Seq<SortOrderV> {
    split_commas(s).map(
        |i: int, t: Seq<char>| SortOrderV { column: lower_of(trim_spec(t)), ascending },
    )
}

/// Parse a comma-separated list into trimmed, lower-cased names.
fn parse_list(list: &str) -> (r: Vec<Vec<char>>)
    ensures
        r.deep_view() == cols_of_list(list@),
{
    let chars = to_chars(list);
    let parts = split_commas_chars(&chars);
    let ghost pv = parts.deep_view();
    let mut r: Vec<Vec<char>> = Vec::new();
    let mut i: usize = 0;
    proof {
        assert(r.deep_view() =~~= cols_of_list(list@).take(0));
    }
    while i < parts.len()
        invariant
            i <= parts@.len(),
            pv == parts.deep_view(),
            pv == split_commas(list@),
            r.deep_view() == cols_of_list(list@).take(i as int),
        decreases parts@.len() - i,
    {
        let t = trim_chars(&parts[i]);
        let l = lower_chars(&t);
        let ghost old_dv = r.deep_view();
        r.push(l);
        i = i + 1;
        proof {
            assert(parts@[i - 1]@ == pv[i - 1]);
            assert(r.deep_view() =~~= old_dv.push(l@));
            assert(r.deep_view() =~~= cols_of_list(list@).take(i as int));
        }
    }
    proof {
        assert(cols_of_list(list@).take(pv.len() as int) =~= cols_of_list(list@));
    }
    r
}

/// Parse a comma-separated sort list with one direction throughout.
fn parse_sort_list(list: &str, ascending: bool) -> (r: Vec<SortOrder>)
    ensures
        orders_v(r@) == sort_list_of(list@, ascending),
{
    let names = parse_list(list);
    let ghost nv = names.deep_view();
    let mut r: Vec<SortOrder> = Vec::new();
    let mut i: usize = 0;
    proof {
        assert(orders_v(r@) =~= sort_list_of(list@, ascending).take(0));
    }
    while i < names.len()
        invariant
            i <= names@.len(),
            nv == names.deep_view(),
            nv == cols_of_list(list@),
            orders_v(r@) == sort_list_of(list@, ascending).take(i as int),
        decreases names@.len() - i,
    {
        let column = copy_chars(&names[i]);
        let ghost old_ov = orders_v(r@);
        r.push(SortOrder { column, ascending });
        i = i + 1;
        proof {
            assert(names@[i - 1]@ == nv[i - 1]);
            assert(cols_of_list(list@).len() == split_commas(list@).len());
            assert(0 <= i - 1 < split_commas(list@).len());
            assert(cols_of_list(list@)[i - 1] == lower_of(trim_spec(split_commas(list@)[i - 1])));
            assert(sort_list_of(list@, ascending).len() == split_commas(list@).len());
            assert(sort_list_of(list@, ascending)[i - 1] == (SortOrderV {
                column: lower_of(trim_spec(split_commas(list@)[i - 1])),
                ascending,
            }));
            assert(orders_v(r@) =~= old_ov.push(SortOrderV { column: nv[i - 1], ascending }));
            assert(orders_v(r@) =~= sort_list_of(list@, ascending).take(i as int));
        }
    }
    proof {
        assert(sort_list_of(list@, ascending).take(nv.len() as int) =~= sort_list_of(
            list@,
            ascending,
        ));
    }
    r
}

/// Turn character vectors into strings.
fn strings_of(v: Vec<Vec<char>>) -> (r: Vec<String>)
    ensures
        r.deep_view() == v.deep_view(),
{
    let mut r: Vec<String> = Vec::new();
    let mut i: usize = 0;
    proof {
        assert(r.deep_view() =~~= v.deep_view().take(0));
    }
    while i < v.len()
        invariant
            i <= v@.len(),
            r.deep_view() == v.deep_view().take(i as int),
        decreases v@.len() - i,
    {
        let ghost old_dv = r.deep_view();
        r.push(chars_string(&v[i]));
        i = i + 1;
        proof {
            assert(r.deep_view() =~~= old_dv.push(v@[i - 1]@));
            assert(r.deep_view() =~~= v.deep_view().take(i as int));
        }
    }
    proof {
        assert(v.deep_view().take(v@.len() as int) =~= v.deep_view());
    }
    r
}

impl TableBuilder {
    /// Use the comma-separated names in `list`, trimmed and lower-cased,
    /// as the output filter: exactly those columns, in that order.  With
    /// no list the existing configuration stands.
    pub fn output_from_list(self, list: Option<&str>) -> (r: TableBuilder)
        ensures
            match list {
                Some(s) => r@ == (TableShape { output_filter: Some(cols_of_list(s@)), ..self@ }),
                None => r@ == self@,
            },
    {
        match list {
            Some(s) => {
                let f = parse_list(s);
                TableBuilder { output_filter: Some(f), ..self }
            },
            None => self,
        }
    }

    /// Use the comma-separated names in `list` as an ascending sort
    /// order.  With no list the existing configuration stands.
    pub fn sort_from_list_asc(self, list: Option<&str>) -> (r: TableBuilder)
        ensures
            match list {
                Some(s) => r@ == (TableShape { sort_order: Some(sort_list_of(s@, true)), ..self@ }),
                None => r@ == self@,
            },
    {
        match list {
            Some(s) => {
                let o = parse_sort_list(s, true);
                TableBuilder { sort_order: Some(o), ..self }
            },
            None => self,
        }
    }

    /// Use the comma-separated names in `list` as a descending sort
    /// order.  With no list the existing configuration stands.
    pub fn sort_from_list_desc(self, list: Option<&str>) -> (r: TableBuilder)
        ensures
            match list {
                Some(s) => r@ == (TableShape { sort_order: Some(sort_list_of(s@, false)), ..self@ }),
                None => r@ == self@,
            },
    {
        match list {
            Some(s) => {
                let o = parse_sort_list(s, false);
                TableBuilder { sort_order: Some(o), ..self }
            },
            None => self,
        }
    }

    /// Declare a column with its display width and default visibility.
    /// Declaration order is the default render order.
    pub fn add_column(self, name: &str, width: usize, default: bool) -> (r: TableBuilder)
        ensures
            r@ == (TableShape {
                outputs: self@.outputs.push(
                    ColumnV { name: name@, width: width as int, default },
                ),
                ..self@
            }),
    {
        let mut outputs = self.outputs;
        let ghost old_cols = cols_v(outputs@);
        outputs.push(Column { name: to_chars(name), width, default });
        proof {
            assert(cols_v(outputs@) =~= old_cols.push(
                ColumnV { name: name@, width: width as int, default },
            ));
        }
        TableBuilder { outputs, ..self }
    }

    /// Change the default visibility of every declared column of the
    /// given name.
    pub fn set_column_default(self, name: &str, def: bool) -> (r: TableBuilder)
        ensures
            r@ == (TableShape {
                outputs: self@.outputs.map(
                    |i: int, c: ColumnV| if c.name == name@ {
                        ColumnV { default: def, ..c }
                    } else {
                        c
                    },
                ),
                ..self@
            }),
    {
        let key = to_chars(name);
        let ghost goal = self@.outputs.map(
            |i: int, c: ColumnV| if c.name == name@ {
                ColumnV { default: def, ..c }
            } else {
                c
            },
        );
        let mut outputs: Vec<Column> = Vec::new();
        let mut i: usize = 0;
        let old_outputs = self.outputs;
        proof {
            assert(cols_v(outputs@) =~= goal.take(0));
        }
        while i < old_outputs.len()
            invariant
                i <= old_outputs@.len(),
                key@ == name@,
                goal == cols_v(old_outputs@).map(
                    |j: int, c: ColumnV| if c.name == key@ {
                        ColumnV { default: def, ..c }
                    } else {
                        c
                    },
                ),
                cols_v(outputs@) == goal.take(i as int),
            decreases old_outputs@.len() - i,
        {
            let c = &old_outputs[i];
            let ghost old_cols = cols_v(outputs@);
            if chars_eq(&c.name, &key) {
                outputs.push(Column { name: copy_chars(&c.name), width: c.width, default: def });
            } else {
                outputs.push(
                    Column { name: copy_chars(&c.name), width: c.width, default: c.default },
                );
            }
            i = i + 1;
            proof {
                assert(cols_v(outputs@) =~= old_cols.push(cols_v(outputs@).last()));
                assert(cols_v(outputs@) =~= goal.take(i as int));
            }
        }
        proof {
            assert(goal.take(goal.len() as int) =~= goal);
        }
        TableBuilder { outputs, ..self }
    }

    /// Render a header line, or not.
    pub fn show_header(self, show: bool) -> (r: TableBuilder)
        ensures
            r@ == (TableShape { header: show, ..self@ }),
    {
        TableBuilder { header: show, ..self }
    }

    /// Render tab-separated values instead of fixed-width columns.
    pub fn tab_separated(self, tabsep: bool) -> (r: TableBuilder)
        ensures
            r@ == (TableShape { tabsep, ..self@ }),
    {
        TableBuilder { tabsep, ..self }
    }

    /// Render numbers exactly instead of humanized.
    pub fn parseable(self, parseable: bool) -> (r: TableBuilder)
        ensures
            r@ == (TableShape { parseable, ..self@ }),
    {
        TableBuilder { parseable, ..self }
    }

    /// Suppress the header if asked; never re-enables it.
    pub fn disable_header(self, disable: bool) -> (r: TableBuilder)
        ensures
            r@ == (TableShape { header: self@.header && !disable, ..self@ }),
    {
        if disable {
            TableBuilder { header: false, ..self }
        } else {
            self
        }
    }

    /// Every declared column name, sorted by code point.
    pub fn column_names(&self) -> (r: Vec<String>)
        ensures
            r.deep_view() == sort_names_spec(self@.outputs.map(|i: int, c: ColumnV| c.name)),
    {
        let ghost goal = self@.outputs.map(|i: int, c: ColumnV| c.name);
        let mut names: Vec<Vec<char>> = Vec::new();
        let mut i: usize = 0;
        proof {
            assert(names.deep_view() =~~= goal.take(0));
        }
        while i < self.outputs.len()
            invariant
                i <= self.outputs@.len(),
                goal == cols_v(self.outputs@).map(|j: int, c: ColumnV| c.name),
                names.deep_view() == goal.take(i as int),
            decreases self.outputs@.len() - i,
        {
            let ghost old_dv = names.deep_view();
            names.push(copy_chars(&self.outputs[i].name));
            i = i + 1;
            proof {
                assert(names.deep_view() =~~= old_dv.push(self.outputs@[i - 1].name@));
                assert(names.deep_view() =~~= goal.take(i as int));
            }
        }
        proof {
            assert(goal.take(goal.len() as int) =~= goal);
        }
        let sorted = sort_names(names);
        strings_of(sorted)
    }
}

/// The built table: an immutable schema plus the accumulated rows.
pub struct Table {
    pub header: bool,
    pub tabsep: bool,
    pub parseable: bool,
    pub outputs: Vec<Column>,
    pub output_filter: Option<Vec<Vec<char>>>,
    pub sort_order: Option<Vec<SortOrder>>,
    pub data: Vec<Row>,
}

/// The mathematical shape of a `Table`.
pub struct TableV {
    pub header: bool,
    pub tabsep: bool,
    pub parseable: bool,
    pub outputs: Seq<ColumnV>,
    pub output_filter: Option<Seq<Seq<char>>>,
    pub sort_order: Option<Seq<SortOrderV>>,
    pub data: Seq<RowMap>,
}

impl View for Table {
    type V = TableV;

    open spec fn view(&self) -> TableV {
        TableV {
            header: self.header,
            tabsep: self.tabsep,
            parseable: self.parseable,
            outputs: cols_v(self.outputs@),
            output_filter: filter_v(self.output_filter),
            sort_order: order_opt_v(self.sort_order),
            data: rows_v(self.data@),
        }
    }
}

/// Whether every filter name resolves to a declared column.
pub open spec fn filter_ok(cols: Seq<ColumnV>, f: Seq<Seq<char>>) -> bool {
    forall|i: int| 0 <= i < f.len() ==> find_col(cols, #[trigger] f[i]) is Some
}

/// The declared column a filter name resolves to.
pub open spec fn col_for(cols: Seq<ColumnV>, n: Seq<char>) -> ColumnV {
    match find_col(cols, n) {
        Some(c) => c,
        None => ColumnV { name: n, width: 0, default: false },
    }
}

/// The columns a render uses: exactly the filter list in its order if one
/// was set, else the default-visible columns in declaration order.
pub open spec fn sel_cols(t: TableV) -> Seq<ColumnV> {
    match t.output_filter {
        Some(f) => f.map(|i: int, n: Seq<char>| col_for(t.outputs, n)),
        None => visible_cols(t.outputs),
    }
}

/// Whether the output filter, if any, names only declared columns.
pub open spec fn filter_valid(t: TableV) -> bool {
    match t.output_filter {
        Some(f) => filter_ok(t.outputs, f),
        None => true,
    }
}

/// Whether every row holds every sorted column.
pub open spec fn sort_keys_present(t: TableV) -> bool {
    match t.sort_order {
        Some(o) => forall|i: int| 0 <= i < t.data.len() ==> row_has_keys(#[trigger] t.data[i], o),
        None => true,
    }
}

/// Whether the rows can be sorted: all sorted columns present with one
/// variant per column.
pub open spec fn sort_valid(t: TableV) -> bool {
    match t.sort_order {
        Some(o) => sortable(t.data, o),
        None => true,
    }
}

/// Whether every row holds every selected output column.
pub open spec fn rows_complete(t: TableV) -> bool {
    forall|i: int, j: int|
        0 <= i < t.data.len() && 0 <= j < sel_cols(t).len() ==> (#[trigger] t.data[i]).contains_key(
            (#[trigger] sel_cols(t)[j]).name,
        )
}

/// Whether a render succeeds: the sort can compare every pair, the filter
/// names only declared columns, and every row holds every selected
/// column.
pub open spec fn renderable(t: TableV) -> bool {
    sort_valid(t) && filter_valid(t) && rows_complete(t)
}

/// The rows in render order: sorted stably if an order is set, else in
/// insertion order.
pub open spec fn ordered_rows(t: TableV) -> Seq<RowMap> {
    match t.sort_order {
        Some(o) => sort_idx(o, t.data).map(|i: int, ix: int| t.data[ix]),
        None => t.data,
    }
}

/// Fixed-width cells concatenated, each padded to its column and followed
/// by one space.
pub open spec fn fixed_cells(texts: Seq<Seq<char>>, cols: Seq<ColumnV>) -> Seq<char>
    decreases texts.len(),
{
    if texts.len() == 0 {
        Seq::<char>::empty()
    } else {
        fixed_cells(texts.drop_last(), cols.drop_last()) + pad_cell_spec(
            texts.last(),
            cols.last().width,
        )
    }
}

/// One rendered line, without its newline: tab-joined cells, or padded
/// cells with trailing whitespace trimmed.
pub open spec fn line_text(texts: Seq<Seq<char>>, cols: Seq<ColumnV>, tabsep: bool) -> Seq<char> {
    if tabsep {
        join_with(texts, seq!['\t'])
    } else {
        trim_end_spec(fixed_cells(texts, cols))
    }
}

/// The header cells: column names upper-cased.
pub open spec fn header_texts(cols: Seq<ColumnV>) -> Seq<Seq<char>> {
    cols.map(|i: int, c: ColumnV| upper_of(c.name))
}

/// The cells of one row; in tab-separated mode embedded tabs become
/// spaces.
pub open spec fn row_cell_texts(r: RowMap, cols: Seq<ColumnV>, parseable: bool, tabsep: bool) -> Seq<
    Seq<char>,
> {
    cols.map(
        |i: int, c: ColumnV| if tabsep {
            untab_spec(value_text(r[c.name], parseable))
        } else {
            value_text(r[c.name], parseable)
        },
    )
}

/// All data lines, each newline-terminated.
pub open spec fn rows_text(
    rows: Seq<RowMap>,
    cols: Seq<ColumnV>,
    parseable: bool,
    tabsep: bool,
) -> Seq<char>
    decreases rows.len(),
{
    if rows.len() == 0 {
        Seq::<char>::empty()
    } else {
        rows_text(rows.drop_last(), cols, parseable, tabsep) + line_text(
            row_cell_texts(rows.last(), cols, parseable, tabsep),
            cols,
            tabsep,
        ) + seq!['\n']
    }
}

/// The whole rendered table: optional header line, then every row in
/// render order, each line newline-terminated.
pub open spec fn table_text(t: TableV) -> Seq<char> {
    (if t.header {
        line_text(header_texts(sel_cols(t)), sel_cols(t), t.tabsep) + seq!['\n']
    } else {
        Seq::<char>::empty()
    }) + rows_text(ordered_rows(t), sel_cols(t), t.parseable, t.tabsep)
}

/// Why a render failed: a schema contract violation or an unresolved
/// filter column, each carrying the offending column name.
#[derive(Debug)]
pub enum TableError {
    MissingSortValue(String),
    MixedColumnKinds(String),
    UnknownOutputColumn(String),
    MissingOutputValue(String),
}

/// What each render error tells of the table it came from.
pub open spec fn error_marks(t: TableV, e: TableError) -> bool {
    match e {
        TableError::MissingSortValue(n) => t.sort_order matches Some(o) && exists|k: int, i: int|
            0 <= k < o.len() && 0 <= i < t.data.len() && (#[trigger] o[k]).column == n@
                && !(#[trigger] t.data[i]).contains_key(n@),
        TableError::MixedColumnKinds(n) => sort_keys_present(t) && (t.sort_order matches Some(o)
            && exists|k: int, i: int, j: int|
            0 <= k < o.len() && 0 <= i < t.data.len() && 0 <= j < t.data.len() && (
            #[trigger] o[k]).column == n@ && !same_kind(
                (#[trigger] t.data[i])[n@],
                (#[trigger] t.data[j])[n@],
            )),
        TableError::UnknownOutputColumn(n) => sort_valid(t) && (t.output_filter matches Some(f)
            && f.contains(n@)) && find_col(t.outputs, n@) is None,
        TableError::MissingOutputValue(n) => sort_valid(t) && filter_valid(t) && exists|
            i: int,
            j: int,
        |
            0 <= i < t.data.len() && 0 <= j < sel_cols(t).len() && (#[trigger] sel_cols(t)[j]).name
                == n@ && !(#[trigger] t.data[i]).contains_key(n@),
    }
}

/// Names in the output filter that match no declared column, in filter
/// order.
pub open spec fn keep_missing(f: Seq<Seq<char>>, cols: Seq<ColumnV>) -> Seq<Seq<char>>
    decreases f.len(),
{
    if f.len() == 0 {
        Seq::<Seq<char>>::empty()
    } else if find_col(cols, f.last()) is None {
        keep_missing(f.drop_last(), cols).push(f.last())
    } else {
        keep_missing(f.drop_last(), cols)
    }
}

/// The sorted filter names that match no declared column; empty without a
/// filter.
pub open spec fn missing_names(shape: TableShape) -> Seq<Seq<char>> {
    match shape.output_filter {
        Some(f) => sort_names_spec(keep_missing(f, shape.outputs)),
        None => Seq::<Seq<char>>::empty(),
    }
}

/// Find a declared column by exact name.
fn find_col_exec(cols: &Vec<Column>, name: &Vec<char>) -> (r: Option<usize>)
    ensures
        match r {
            Some(i) => 0 <= i < cols@.len() && find_col(cols_v(cols@), name@) == Some(
                cols@[i as int]@,
            ),
            None => find_col(cols_v(cols@), name@) is None,
        },
{
    let ghost cv = cols_v(cols@);
    let mut i: usize = 0;
    proof {
        assert(cv.skip(0) =~= cv);
    }
    while i < cols.len()
        invariant
            i <= cols@.len(),
            cv == cols_v(cols@),
            find_col(cv, name@) == find_col(cv.skip(i as int), name@),
        decreases cols@.len() - i,
    {
        proof {
            assert(cv.skip(i as int)[0] == cv[i as int]);
            assert(cv.skip(i as int).drop_first() =~= cv.skip(i + 1));
        }
        if chars_eq(&cols[i].name, name) {
            return Some(i);
        }
        i = i + 1;
    }
    proof {
        assert(cv.skip(i as int) =~= Seq::<ColumnV>::empty());
    }
    None
}

impl TableBuilder {
    /// The filter names that match no declared column, sorted; used to
    /// validate a filter before rendering.
    pub fn missing_column_names(&self) -> (r: Vec<String>)
        ensures
            r.deep_view() == missing_names(self@),
    {
        match &self.output_filter {
            Some(f) => {
                let ghost fv = f.deep_view();
                let mut missing: Vec<Vec<char>> = Vec::new();
                let mut i: usize = 0;
                proof {
                    assert(missing.deep_view() =~~= keep_missing(fv.take(0), self@.outputs));
                }
                while i < f.len()
                    invariant
                        i <= f@.len(),
                        fv == f.deep_view(),
                        self@.output_filter == Some(fv),
                        missing.deep_view() == keep_missing(fv.take(i as int), self@.outputs),
                    decreases f@.len() - i,
                {
                    proof {
                        assert(fv.take(i + 1).drop_last() =~= fv.take(i as int));
                        assert(fv.take(i + 1).last() == fv[i as int]);
                        assert(f@[i as int]@ == fv[i as int]);
                    }
                    let ghost old_dv = missing.deep_view();
                    match find_col_exec(&self.outputs, &f[i]) {
                        Some(_) => {},
                        None => {
                            missing.push(copy_chars(&f[i]));
                            proof {
                                assert(missing.deep_view() =~~= old_dv.push(fv[i as int]));
                            }
                        },
                    }
                    i = i + 1;
                }
                proof {
                    assert(fv.take(fv.len() as int) =~= fv);
                }
                let sorted = sort_names(missing);
                strings_of(sorted)
            },
            None => Vec::new(),
        }
    }

    /// Snapshot this builder into an immutable-schema table with no rows
    /// yet.
    pub fn build(&self) -> (t: Table)
        ensures
            t@ == (TableV {
                header: self@.header,
                tabsep: self@.tabsep,
                parseable: self@.parseable,
                outputs: self@.outputs,
                output_filter: self@.output_filter,
                sort_order: self@.sort_order,
                data: Seq::<RowMap>::empty(),
            }),
    {
        let mut outputs: Vec<Column> = Vec::new();
        let mut i: usize = 0;
        proof {
            assert(cols_v(outputs@) =~= self@.outputs.take(0));
        }
        while i < self.outputs.len()
            invariant
                i <= self.outputs@.len(),
                cols_v(outputs@) == cols_v(self.outputs@).take(i as int),
            decreases self.outputs@.len() - i,
        {
            let c = &self.outputs[i];
            let ghost old_cols = cols_v(outputs@);
            outputs.push(Column { name: copy_chars(&c.name), width: c.width, default: c.default });
            i = i + 1;
            proof {
                assert(cols_v(outputs@) =~= old_cols.push(self.outputs@[i - 1]@));
                assert(cols_v(outputs@) =~= cols_v(self.outputs@).take(i as int));
            }
        }
        proof {
            assert(cols_v(self.outputs@).take(self.outputs@.len() as int) =~= cols_v(
                self.outputs@,
            ));
        }
        let output_filter: Option<Vec<Vec<char>>> = match &self.output_filter {
            Some(f) => {
                let mut names: Vec<Vec<char>> = Vec::new();
                let mut i: usize = 0;
                proof {
                    assert(names.deep_view() =~~= f.deep_view().take(0));
                }
                while i < f.len()
                    invariant
                        i <= f@.len(),
                        names.deep_view() == f.deep_view().take(i as int),
                    decreases f@.len() - i,
                {
                    let ghost old_dv = names.deep_view();
                    names.push(copy_chars(&f[i]));
                    i = i + 1;
                    proof {
                        assert(names.deep_view() =~~= old_dv.push(f@[i - 1]@));
                        assert(names.deep_view() =~~= f.deep_view().take(i as int));
                    }
                }
                proof {
                    assert(f.deep_view().take(f@.len() as int) =~= f.deep_view());
                }
                Some(names)
            },
            None => None,
        };
        let sort_order: Option<Vec<SortOrder>> = match &self.sort_order {
            Some(o) => {
                let mut keys: Vec<SortOrder> = Vec::new();
                let mut i: usize = 0;
                proof {
                    assert(orders_v(keys@) =~= orders_v(o@).take(0));
                }
                while i < o.len()
                    invariant
                        i <= o@.len(),
                        orders_v(keys@) == orders_v(o@).take(i as int),
                    decreases o@.len() - i,
                {
                    let ghost old_ov = orders_v(keys@);
                    keys.push(
                        SortOrder { column: copy_chars(&o[i].column), ascending: o[i].ascending },
                    );
                    i = i + 1;
                    proof {
                        assert(orders_v(keys@) =~= old_ov.push(o@[i - 1]@));
                        assert(orders_v(keys@) =~= orders_v(o@).take(i as int));
                    }
                }
                proof {
                    assert(orders_v(o@).take(o@.len() as int) =~= orders_v(o@));
                }
                Some(keys)
            },
            None => None,
        };
        let t = Table {
            header: self.header,
            tabsep: self.tabsep,
            parseable: self.parseable,
            outputs,
            output_filter,
            sort_order,
            data: Vec::new(),
        };
        proof {
            assert(rows_v(t.data@) =~= Seq::<RowMap>::empty());
        }
        t
    }
}

impl Table {
    /// Append a row; nothing is validated until rendering.
    pub fn add_row(&mut self, row: Row)
        ensures
            final(self)@ == (TableV { data: old(self)@.data.push(row@), ..old(self)@ }),
    {
        self.data.push(row);
        proof {
            assert(rows_v(self.data@) =~= old(self)@.data.push(self.data@.last()@));
        }
    }
}

/// Whether two values carry the same variant.
fn kind_eq(a: &Value, b: &Value) -> (r: bool)
    ensures
        r == same_kind(a@, b@),
{
    match (a, b) {
        (Value::Text(_), Value::Text(_)) => true,
        (Value::Num(_), Value::Num(_)) => true,
        (Value::Bytes(_), Value::Bytes(_)) => true,
        (Value::Age(_), Value::Age(_)) => true,
        _ => false,
    }
}

/// A fresh value with the same content.
fn clone_value(v: &Value) -> (r: Value)
    ensures
        r@ == v@,
{
    match v {
        Value::Text(s) => Value::Text(copy_chars(s)),
        Value::Num(n) => Value::Num(*n),
        Value::Bytes(b) => Value::Bytes(*b),
        Value::Age(a) => Value::Age(*a),
    }
}

proof fn lemma_entries_map_congruent(a: Seq<(Vec<char>, Value)>, b: Seq<(Vec<char>, Value)>)
    requires
        a.len() == b.len(),
        forall|i: int| 0 <= i < a.len() ==> (#[trigger] a[i]).0@ == b[i].0@ && a[i].1@ == b[i].1@,
    ensures
        entries_map(a) == entries_map(b),
    decreases a.len(),
{
    if a.len() > 0 {
        assert forall|i: int| 0 <= i < a.drop_first().len() implies (#[trigger] a.drop_first()[i]).0@
            == b.drop_first()[i].0@ && a.drop_first()[i].1@ == b.drop_first()[i].1@ by {
            assert(a.drop_first()[i] == a[i + 1]);
            assert(b.drop_first()[i] == b[i + 1]);
        }
        lemma_entries_map_congruent(a.drop_first(), b.drop_first());
    }
}

/// A fresh row with the same contents.
fn clone_row(r: &Row) -> (c: Row)
    ensures
        c@ == r@,
{
    let mut entries: Vec<(Vec<char>, Value)> = Vec::new();
    let mut i: usize = 0;
    while i < r.entries.len()
        invariant
            i <= r.entries@.len(),
            entries@.len() == i,
            forall|j: int|
                0 <= j < i ==> (#[trigger] entries@[j]).0@ == r.entries@[j].0@ && entries@[j].1@
                    == r.entries@[j].1@,
        decreases r.entries@.len() - i,
    {
        let key = copy_chars(&r.entries[i].0);
        let val = clone_value(&r.entries[i].1);
        entries.push((key, val));
        i = i + 1;
    }
    proof {
        lemma_entries_map_congruent(entries@, r.entries@);
    }
    Row { entries }
}

/// The rendered text of one value.
fn value_chars(v: &Value, parseable: bool) -> (r: Vec<char>)
    ensures
        r@ == value_text(v@, parseable),
{
    match v {
        Value::Text(s) => copy_chars(s),
        Value::Num(n) => dec_chars(*n),
        Value::Bytes(b) => bytes_chars(*b, parseable),
        Value::Age(a) => age_chars(*a, parseable),
    }
}

/// One data line for a row, without its newline.
fn row_line(row: &Row, cols: &Vec<Column>, parseable: bool, tabsep: bool) -> (r: Vec<char>)
    requires
        forall|j: int|
            0 <= j < cols@.len() ==> row@.contains_key((#[trigger] cols_v(cols@)[j]).name),
    ensures
        r@ == line_text(row_cell_texts(row@, cols_v(cols@), parseable, tabsep), cols_v(cols@), tabsep),
{
    let ghost cv = cols_v(cols@);
    let ghost texts = row_cell_texts(row@, cv, parseable, tabsep);
    if tabsep {
        let mut cells: Vec<Vec<char>> = Vec::new();
        let mut j: usize = 0;
        proof {
            assert(cells.deep_view() =~~= texts.take(0));
        }
        while j < cols.len()
            invariant
                tabsep,
                j <= cols@.len(),
                cv == cols_v(cols@),
                texts == row_cell_texts(row@, cv, parseable, tabsep),
                forall|m: int| 0 <= m < cols@.len() ==> row@.contains_key((#[trigger] cv[m]).name),
                cells.deep_view() == texts.take(j as int),
            decreases cols@.len() - j,
        {
            proof {
                assert(cv.len() == cols@.len());
                assert(texts.len() == cv.len());
                assert(cv[j as int] == cols@[j as int]@);
                assert(row@.contains_key(cv[j as int].name));
                assert(texts[j as int] == untab_spec(
                    value_text(row@[cv[j as int].name], parseable),
                ));
            }
            let v = row.get(&cols[j].name).unwrap();
            let t = value_chars(v, parseable);
            let u = untab_chars(&t);
            let ghost old_dv = cells.deep_view();
            cells.push(u);
            j = j + 1;
            proof {
                assert(cells.deep_view() =~~= old_dv.push(texts[j - 1]));
                assert(cells.deep_view() =~~= texts.take(j as int));
            }
        }
        proof {
            assert(texts.take(texts.len() as int) =~= texts);
        }
        let mut sep: Vec<char> = Vec::new();
        sep.push('\t');
        proof {
            assert(sep@ =~= seq!['\t']);
        }
        join_chars(&cells, &sep)
    } else {
        let mut line: Vec<char> = Vec::new();
        let mut j: usize = 0;
        proof {
            assert(line@ =~= fixed_cells(texts.take(0), cv.take(0)));
        }
        while j < cols.len()
            invariant
                !tabsep,
                j <= cols@.len(),
                cv == cols_v(cols@),
                texts == row_cell_texts(row@, cv, parseable, tabsep),
                forall|m: int| 0 <= m < cols@.len() ==> row@.contains_key((#[trigger] cv[m]).name),
                line@ == fixed_cells(texts.take(j as int), cv.take(j as int)),
            decreases cols@.len() - j,
        {
            proof {
                assert(cv.len() == cols@.len());
                assert(texts.len() == cv.len());
                assert(cv[j as int] == cols@[j as int]@);
                assert(row@.contains_key(cv[j as int].name));
                assert(texts[j as int] == value_text(row@[cv[j as int].name], parseable));
            }
            let v = row.get(&cols[j].name).unwrap();
            let t = value_chars(v, parseable);
            push_cell(&mut line, &t, cols[j].width);
            j = j + 1;
            proof {
                assert(texts.take(j as int).drop_last() =~= texts.take(j - 1));
                assert(cv.take(j as int).drop_last() =~= cv.take(j - 1));
                assert(texts.take(j as int).last() == texts[j - 1]);
                assert(cv.take(j as int).last() == cv[j - 1]);
            }
        }
        proof {
            assert(texts.take(texts.len() as int) =~= texts);
            assert(cv.take(cv.len() as int) =~= cv);
        }
        trim_end_chars(&mut line);
        line
    }
}

/// The header line, without its newline.
fn header_line(cols: &Vec<Column>, tabsep: bool) -> (r: Vec<char>)
    ensures
        r@ == line_text(header_texts(cols_v(cols@)), cols_v(cols@), tabsep),
{
    let ghost cv = cols_v(cols@);
    let ghost texts = header_texts(cv);
    if tabsep {
        let mut cells: Vec<Vec<char>> = Vec::new();
        let mut j: usize = 0;
        proof {
            assert(cells.deep_view() =~~= texts.take(0));
        }
        while j < cols.len()
            invariant
                j <= cols@.len(),
                cv == cols_v(cols@),
                texts == header_texts(cv),
                cells.deep_view() == texts.take(j as int),
            decreases cols@.len() - j,
        {
            proof {
                assert(cv[j as int] == cols@[j as int]@);
                assert(texts[j as int] == upper_of(cv[j as int].name));
            }
            let u = upper_chars(&cols[j].name);
            let ghost old_dv = cells.deep_view();
            cells.push(u);
            j = j + 1;
            proof {
                assert(cells.deep_view() =~~= old_dv.push(texts[j - 1]));
                assert(cells.deep_view() =~~= texts.take(j as int));
            }
        }
        proof {
            assert(texts.take(texts.len() as int) =~= texts);
        }
        let mut sep: Vec<char> = Vec::new();
        sep.push('\t');
        proof {
            assert(sep@ =~= seq!['\t']);
        }
        join_chars(&cells, &sep)
    } else {
        let mut line: Vec<char> = Vec::new();
        let mut j: usize = 0;
        proof {
            assert(line@ =~= fixed_cells(texts.take(0), cv.take(0)));
        }
        while j < cols.len()
            invariant
                j <= cols@.len(),
                cv == cols_v(cols@),
                texts == header_texts(cv),
                line@ == fixed_cells(texts.take(j as int), cv.take(j as int)),
            decreases cols@.len() - j,
        {
            proof {
                assert(cv[j as int] == cols@[j as int]@);
                assert(texts[j as int] == upper_of(cv[j as int].name));
            }
            let u = upper_chars(&cols[j].name);
            push_cell(&mut line, &u, cols[j].width);
            j = j + 1;
            proof {
                assert(texts.take(j as int).drop_last() =~= texts.take(j - 1));
                assert(cv.take(j as int).drop_last() =~= cv.take(j - 1));
                assert(texts.take(j as int).last() == texts[j - 1]);
                assert(cv.take(j as int).last() == cv[j - 1]);
            }
        }
        proof {
            assert(texts.take(texts.len() as int) =~= texts);
            assert(cv.take(cv.len() as int) =~= cv);
        }
        trim_end_chars(&mut line);
        line
    }
}

proof fn lemma_same_kind_join(a: ValueV, b: ValueV, c: ValueV)
    requires
        same_kind(a, b),
        same_kind(a, c),
    ensures
        same_kind(b, c),
{
    match a {
        ValueV::Text(_) => {},
        ValueV::Num(_) => {},
        ValueV::Bytes(_) => {},
        ValueV::Age(_) => {},
    }
}

impl Table {
    /// Render the table: sort stably if a sort order is set, select the
    /// output columns, then write the optional header and every row, each
    /// line newline-terminated.  Fails, leaving the table unchanged, when
    /// a sorted column is missing or mixes variants, when the filter
    /// names an undeclared column, or when a row lacks a selected column.
    pub fn output(&mut self) -> (r: Result<String, TableError>)
        ensures
            match r {
                Ok(s) => renderable(old(self)@) && s@ == table_text(old(self)@) && final(self)@
                    == (TableV { data: ordered_rows(old(self)@), ..old(self)@ }),
                Err(e) => !renderable(old(self)@) && *final(self) == *old(self) && error_marks(
                    old(self)@,
                    e,
                ),
            },
    {
        let ghost t0 = self@;
        match &self.sort_order {
            Some(order) => {
                let ghost ov = orders_v(order@);
                let mut k: usize = 0;
                while k < order.len()
                    invariant
                        k <= order@.len(),
                        ov == orders_v(order@),
                        t0 == self@,
                        t0.sort_order == Some(ov),
                        forall|k2: int, i: int|
                            0 <= k2 < k && 0 <= i < t0.data.len() ==> (#[trigger] t0.data[i]).contains_key(
                                (#[trigger] ov[k2]).column,
                            ),
                    decreases order@.len() - k,
                {
                    let mut i: usize = 0;
                    while i < self.data.len()
                        invariant
                            k < order@.len(),
                            i <= self.data@.len(),
                            ov == orders_v(order@),
                            t0 == self@,
                            t0.sort_order == Some(ov),
                            forall|i2: int|
                                0 <= i2 < i ==> (#[trigger] t0.data[i2]).contains_key(
                                    ov[k as int].column,
                                ),
                        decreases self.data@.len() - i,
                    {
                        proof {
                            assert(t0.data[i as int] == self.data@[i as int]@);
                            assert(ov[k as int] == order@[k as int]@);
                        }
                        match self.data[i].get(&order[k].column) {
                            Some(_) => {},
                            None => {
                                let name = chars_string(&order[k].column);
                                proof {
                                    assert(0 <= k < ov.len() && 0 <= i < t0.data.len() && ov[
                                        k as int
                                    ].column == name@ && !t0.data[i as int].contains_key(name@));
                                    assert(!row_has_keys(t0.data[i as int], ov));
                                    assert(!sortable(t0.data, ov));
                                }
                                return Err(TableError::MissingSortValue(name));
                            },
                        }
                        i = i + 1;
                    }
                    k = k + 1;
                }
                if self.data.len() > 0 {
                    let mut k: usize = 0;
                    while k < order.len()
                        invariant
                            k <= order@.len(),
                            ov == orders_v(order@),
                            t0 == self@,
                            t0.sort_order == Some(ov),
                            t0.data.len() > 0,
                            forall|k2: int, i: int|
                                0 <= k2 < order@.len() && 0 <= i < t0.data.len() ==> (
                                #[trigger] t0.data[i]).contains_key((#[trigger] ov[k2]).column),
                            forall|k2: int, i: int, j: int|
                                0 <= k2 < k && 0 <= i < t0.data.len() && 0 <= j < t0.data.len()
                                    ==> same_kind(
                                    (#[trigger] t0.data[i])[(#[trigger] ov[k2]).column],
                                    (#[trigger] t0.data[j])[ov[k2].column],
                                ),
                        decreases order@.len() - k,
                    {
                        proof {
                            assert(t0.data[0] == self.data@[0]@);
                            assert(ov[k as int] == order@[k as int]@);
                        }
                        let first = self.data[0].get(&order[k].column).unwrap();
                        let ghost fv = t0.data[0][ov[k as int].column];
                        let mut i: usize = 1;
                        while i < self.data.len()
                            invariant
                                k < order@.len(),
                                1 <= i <= self.data@.len(),
                                ov == orders_v(order@),
                                t0 == self@,
                                t0.sort_order == Some(ov),
                                t0.data.len() > 0,
                                first@ == fv,
                                fv == t0.data[0][ov[k as int].column],
                                forall|k2: int, i2: int|
                                    0 <= k2 < order@.len() && 0 <= i2 < t0.data.len() ==> (
                                    #[trigger] t0.data[i2]).contains_key(
                                        (#[trigger] ov[k2]).column,
                                    ),
                                forall|i2: int|
                                    0 <= i2 < i ==> same_kind(
                                        fv,
                                        (#[trigger] t0.data[i2])[ov[k as int].column],
                                    ),
                            decreases self.data@.len() - i,
                        {
                            proof {
                                assert(t0.data[i as int] == self.data@[i as int]@);
                                assert(ov[k as int] == order@[k as int]@);
                            }
                            let v = self.data[i].get(&order[k].column).unwrap();
                            if !kind_eq(first, v) {
                                let name = chars_string(&order[k].column);
                                proof {
                                    assert(v@ == t0.data[i as int][name@]);
                                    assert(0 <= k < ov.len() && 0 <= i < t0.data.len() && ov[
                                        k as int
                                    ].column == name@ && !same_kind(
                                        t0.data[0][name@],
                                        t0.data[i as int][name@],
                                    ));
                                    assert(sort_keys_present(t0)) by {
                                        assert forall|i2: int|
                                            0 <= i2 < t0.data.len() implies row_has_keys(
                                            #[trigger] t0.data[i2],
                                            ov,
                                        ) by {}
                                    }
                                    assert(!rows_kinds_match(t0.data[0], t0.data[i as int], ov));
                                    assert(!sortable(t0.data, ov));
                                }
                                return Err(TableError::MixedColumnKinds(name));
                            }
                            i = i + 1;
                        }
                        proof {
                            assert forall|i: int, j: int|
                                0 <= i < t0.data.len() && 0 <= j < t0.data.len() implies same_kind(
                                t0.data[i][ov[k as int].column],
                                t0.data[j][ov[k as int].column],
                            ) by {
                                lemma_same_kind_join(
                                    fv,
                                    t0.data[i][ov[k as int].column],
                                    t0.data[j][ov[k as int].column],
                                );
                            }
                        }
                        k = k + 1;
                    }
                }
                proof {
                    assert forall|i: int| 0 <= i < t0.data.len() implies row_has_keys(
                        #[trigger] t0.data[i],
                        ov,
                    ) by {}
                    if self.data@.len() > 0 {
                        assert forall|i: int, j: int|
                            0 <= i < t0.data.len() && 0 <= j < t0.data.len() implies rows_kinds_match(
                            #[trigger] t0.data[i],
                            #[trigger] t0.data[j],
                            ov,
                        ) by {}
                    }
                    assert(sortable(t0.data, ov));
                }
            },
            None => {},
        }
        proof {
            assert(sort_valid(t0));
        }
        let ghost gsel = sel_cols(t0);
        let mut selected: Vec<Column> = Vec::new();
        match &self.output_filter {
            Some(f) => {
                let ghost fv = f.deep_view();
                let mut i: usize = 0;
                proof {
                    assert(t0.output_filter == Some(fv));
                    assert(gsel =~= fv.map(|m: int, n: Seq<char>| col_for(t0.outputs, n)));
                    assert(cols_v(selected@) =~= gsel.take(0));
                }
                while i < f.len()
                    invariant
                        i <= f@.len(),
                        fv == f.deep_view(),
                        t0 == self@,
                        t0.output_filter == Some(fv),
                        sort_valid(t0),
                        gsel == sel_cols(t0),
                        gsel == fv.map(|m: int, n: Seq<char>| col_for(t0.outputs, n)),
                        cols_v(selected@) == gsel.take(i as int),
                        forall|i2: int|
                            0 <= i2 < i ==> find_col(t0.outputs, #[trigger] fv[i2]) is Some,
                    decreases f@.len() - i,
                {
                    proof {
                        assert(f@[i as int]@ == fv[i as int]);
                        assert(gsel.len() == fv.len());
                        assert(gsel[i as int] == col_for(t0.outputs, fv[i as int]));
                    }
                    match find_col_exec(&self.outputs, &f[i]) {
                        Some(ci) => {
                            let c = &self.outputs[ci];
                            let ghost old_cols = cols_v(selected@);
                            selected.push(
                                Column {
                                    name: copy_chars(&c.name),
                                    width: c.width,
                                    default: c.default,
                                },
                            );
                            i = i + 1;
                            proof {
                                assert(cols_v(selected@) =~= old_cols.push(
                                    self.outputs@[ci as int]@,
                                ));
                                assert(gsel[i - 1] == col_for(t0.outputs, fv[i - 1]));
                                assert(cols_v(selected@) =~= gsel.take(i as int));
                            }
                        },
                        None => {
                            let name = chars_string(&f[i]);
                            proof {
                                assert(fv.contains(fv[i as int]));
                                assert(name@ == fv[i as int]);
                                assert(find_col(t0.outputs, name@) is None);
                                assert(!filter_ok(t0.outputs, fv));
                            }
                            return Err(TableError::UnknownOutputColumn(name));
                        },
                    }
                }
                proof {
                    assert(gsel.take(fv.len() as int) =~= gsel);
                    assert(filter_valid(t0));
                }
            },
            None => {
                let mut i: usize = 0;
                proof {
                    assert(cols_v(selected@) =~= visible_cols(t0.outputs.take(0)));
                }
                while i < self.outputs.len()
                    invariant
                        i <= self.outputs@.len(),
                        t0 == self@,
                        t0.output_filter is None,
                        sort_valid(t0),
                        cols_v(selected@) == visible_cols(t0.outputs.take(i as int)),
                    decreases self.outputs@.len() - i,
                {
                    proof {
                        assert(t0.outputs.take(i + 1).drop_last() =~= t0.outputs.take(i as int));
                        assert(t0.outputs.take(i + 1).last() == t0.outputs[i as int]);
                        assert(t0.outputs[i as int] == self.outputs@[i as int]@);
                    }
                    let c = &self.outputs[i];
                    let ghost old_cols = cols_v(selected@);
                    if c.default {
                        selected.push(
                            Column { name: copy_chars(&c.name), width: c.width, default: c.default },
                        );
                        proof {
                            assert(cols_v(selected@) =~= old_cols.push(self.outputs@[i as int]@));
                        }
                    }
                    i = i + 1;
                }
                proof {
                    assert(t0.outputs.take(t0.outputs.len() as int) =~= t0.outputs);
                    assert(filter_valid(t0));
                }
            },
        }
        proof {
            assert(cols_v(selected@) == gsel);
        }
        let mut i: usize = 0;
        while i < self.data.len()
            invariant
                i <= self.data@.len(),
                t0 == self@,
                sort_valid(t0),
                filter_valid(t0),
                gsel == sel_cols(t0),
                cols_v(selected@) == gsel,
                forall|i2: int, j: int|
                    0 <= i2 < i && 0 <= j < gsel.len() ==> (#[trigger] t0.data[i2]).contains_key(
                        (#[trigger] gsel[j]).name,
                    ),
            decreases self.data@.len() - i,
        {
            let mut j: usize = 0;
            while j < selected.len()
                invariant
                    i < self.data@.len(),
                    j <= selected@.len(),
                    t0 == self@,
                    sort_valid(t0),
                    filter_valid(t0),
                    gsel == sel_cols(t0),
                    cols_v(selected@) == gsel,
                    forall|j2: int|
                        0 <= j2 < j ==> t0.data[i as int].contains_key((#[trigger] gsel[j2]).name),
                decreases selected@.len() - j,
            {
                proof {
                    assert(t0.data[i as int] == self.data@[i as int]@);
                    assert(gsel[j as int] == selected@[j as int]@);
                }
                match self.data[i].get(&selected[j].name) {
                    Some(_) => {},
                    None => {
                        let name = chars_string(&selected[j].name);
                        proof {
                            assert(0 <= i < t0.data.len() && 0 <= j < gsel.len() && gsel[
                                j as int
                            ].name == name@ && !t0.data[i as int].contains_key(name@));
                            assert(!rows_complete(t0));
                        }
                        return Err(TableError::MissingOutputValue(name));
                    },
                }
                j = j + 1;
            }
            i = i + 1;
        }
        proof {
            assert(rows_complete(t0));
            assert(renderable(t0));
        }
        match &self.sort_order {
            Some(order) => {
                let ghost ov = orders_v(order@);
                let perm = sort_perm(&self.data, order);
                proof {
                    lemma_sort_idx_permutation(ov, t0.data);
                }
                let mut new_data: Vec<Row> = Vec::new();
                let mut p: usize = 0;
                proof {
                    assert(rows_v(new_data@) =~= ordered_rows(t0).take(0));
                }
                while p < perm.len()
                    invariant
                        p <= perm@.len(),
                        t0 == self@,
                        t0.sort_order == Some(ov),
                        renderable(t0),
                        gsel == sel_cols(t0),
                        cols_v(selected@) == gsel,
                        perm@.map_values(|u: usize| u as int) == sort_idx(ov, t0.data),
                        perm@.len() == self.data@.len(),
                        forall|j: int| 0 <= j < perm@.len() ==> #[trigger] perm@[j] < self.data@.len(),
                        rows_v(new_data@) == ordered_rows(t0).take(p as int),
                    decreases perm@.len() - p,
                {
                    let ix = perm[p];
                    let row = clone_row(&self.data[ix]);
                    let ghost old_rows = rows_v(new_data@);
                    new_data.push(row);
                    p = p + 1;
                    proof {
                        assert(perm@.map_values(|u: usize| u as int)[p - 1] == perm@[p - 1] as int);
                        assert(self.data@[perm@[p - 1] as int]@ == t0.data[sort_idx(ov, t0.data)[p
                            - 1]]);
                        assert(rows_v(new_data@) =~= old_rows.push(t0.data[sort_idx(ov, t0.data)[p
                            - 1]]));
                        assert(ordered_rows(t0).take(p as int).drop_last() =~= ordered_rows(
                            t0,
                        ).take(p - 1));
                        assert(ordered_rows(t0).take(p as int).last() == ordered_rows(t0)[p - 1]);
                        assert(ordered_rows(t0)[p - 1] == t0.data[sort_idx(ov, t0.data)[p - 1]]);
                        assert(rows_v(new_data@) =~= ordered_rows(t0).take(p as int));
                    }
                }
                proof {
                    assert(ordered_rows(t0).take(ordered_rows(t0).len() as int) =~= ordered_rows(
                        t0,
                    ));
                }
                self.data = new_data;
            },
            None => {},
        }
        proof {
            if t0.sort_order is None {
                assert(ordered_rows(t0) == t0.data);
            }
            assert(rows_v(self.data@) == ordered_rows(t0));
            assert forall|i2: int, j: int|
                0 <= i2 < rows_v(self.data@).len() && 0 <= j < gsel.len() implies (
            #[trigger] rows_v(self.data@)[i2]).contains_key((#[trigger] gsel[j]).name) by {
                match t0.sort_order {
                    Some(o) => {
                        lemma_sort_idx_permutation(o, t0.data);
                        let s = sort_idx(o, t0.data);
                        assert(s.contains(s[i2]));
                        assert(rows_v(self.data@)[i2] == t0.data[s[i2]]);
                    },
                    None => {},
                }
            }
        }
        let mut out: Vec<char> = Vec::new();
        let ghost head = if t0.header {
            line_text(header_texts(gsel), gsel, t0.tabsep) + seq!['\n']
        } else {
            Seq::<char>::empty()
        };
        if self.header {
            let h = header_line(&selected, self.tabsep);
            push_all(&mut out, &h);
            out.push('\n');
        }
        proof {
            assert(out@ =~= head + rows_text(rows_v(self.data@).take(0), gsel, t0.parseable, t0.tabsep));
        }
        let mut i: usize = 0;
        while i < self.data.len()
            invariant
                i <= self.data@.len(),
                self@ == (TableV { data: rows_v(self.data@), ..t0 }),
                rows_v(self.data@) == ordered_rows(t0),
                renderable(t0),
                gsel == sel_cols(t0),
                cols_v(selected@) == gsel,
                forall|i2: int, j: int|
                    0 <= i2 < rows_v(self.data@).len() && 0 <= j < gsel.len() ==> (
                    #[trigger] rows_v(self.data@)[i2]).contains_key((#[trigger] gsel[j]).name),
                out@ == head + rows_text(
                    rows_v(self.data@).take(i as int),
                    gsel,
                    t0.parseable,
                    t0.tabsep,
                ),
            decreases self.data@.len() - i,
        {
            proof {
                assert(rows_v(self.data@)[i as int] == self.data@[i as int]@);
            }
            let l = row_line(&self.data[i], &selected, self.parseable, self.tabsep);
            push_all(&mut out, &l);
            out.push('\n');
            i = i + 1;
            proof {
                let rows = rows_v(self.data@);
                assert(rows.take(i as int).drop_last() =~= rows.take(i - 1));
                assert(rows.take(i as int).last() == rows[i - 1]);
                assert(out@ =~= head + rows_text(rows.take(i as int), gsel, t0.parseable, t0.tabsep));
            }
        }
        proof {
            let rows = rows_v(self.data@);
            assert(rows.take(rows.len() as int) =~= rows);
            assert(out@ =~= table_text(t0));
        }
        let s = chars_string(&out);
        Ok(s)
    }
}

proof fn lemma_find_col_name(cols: Seq<ColumnV>, n: Seq<char>)
    requires
        find_col(cols, n) is Some,
    ensures
        find_col(cols, n)->Some_0.name == n,
    decreases cols.len(),
{
    if cols.len() > 0 && cols[0].name != n {
        lemma_find_col_name(cols.drop_first(), n);
    }
}

/// With no sort order, rendering preserves row insertion order: the rows
/// are rendered exactly as accumulated, first to last.
pub proof fn lemma_unsorted_preserves_order(t: TableV)
    requires
        t.sort_order is None,
    ensures
        ordered_rows(t) == t.data,
        table_text(t) == (if t.header {
            line_text(header_texts(sel_cols(t)), sel_cols(t), t.tabsep) + seq!['\n']
        } else {
            Seq::<char>::empty()
        }) + rows_text(t.data, sel_cols(t), t.parseable, t.tabsep),
{
}

/// An output filter restricts both the column set and the column order to
/// exactly the filter list, whatever the declared default visibility.
pub proof fn lemma_filter_controls_columns(t: TableV)
    requires
        t.output_filter matches Some(f) && filter_ok(t.outputs, f),
    ensures
        t.output_filter matches Some(f) ==> sel_cols(t).len() == f.len() && forall|i: int|
            0 <= i < f.len() ==> (#[trigger] sel_cols(t)[i]).name == f[i],
{
    let f = t.output_filter->Some_0;
    assert forall|i: int| 0 <= i < f.len() implies (#[trigger] sel_cols(t)[i]).name == f[i] by {
        lemma_find_col_name(t.outputs, f[i]);
    }
}

/// Where a name lands in a case-insensitively sorted list: after every
/// name whose lowercase folding does not order above its own.
pub open spec fn insert_name_folded(s: Seq<Seq<char>>, n: Seq<char>) -> Seq<Seq<char>>
    decreases s.len(),
{
    if s.len() == 0 {
        seq![n]
    } else if seq_lt(lower_of(n), lower_of(s[0])) {
        seq![n] + s
    } else {
        seq![s[0]] + insert_name_folded(s.drop_first(), n)
    }
}

/// A name list in case-insensitive sorted order: sorted by the lowercase
/// folding, names folding alike kept in their original order.
pub open spec fn sort_names_folded(s: Seq<Seq<char>>) -> Seq<Seq<char>>
    decreases s.len(),
{
    if s.len() == 0 {
        Seq::<Seq<char>>::empty()
    } else {
        insert_name_folded(sort_names_folded(s.drop_last()), s.last())
    }
}

/// Case-insensitive sorting keeps the number of names.
pub proof fn lemma_sort_names_folded_len(s: Seq<Seq<char>>)
    ensures
        sort_names_folded(s).len() == s.len(),
    decreases s.len(),
{
    if s.len() > 0 {
        lemma_sort_names_folded_len(s.drop_last());
        lemma_insert_name_folded_len(sort_names_folded(s.drop_last()), s.last());
    }
}

proof fn lemma_insert_name_folded_len(s: Seq<Seq<char>>, n: Seq<char>)
    ensures
        insert_name_folded(s, n).len() == s.len() + 1,
    decreases s.len(),
{
    if s.len() > 0 && !seq_lt(lower_of(n), lower_of(s[0])) {
        lemma_insert_name_folded_len(s.drop_first(), n);
    }
}

proof fn lemma_insert_name_folded_at(s: Seq<Seq<char>>, n: Seq<char>, p: int)
    requires
        0 <= p <= s.len(),
        forall|j: int| 0 <= j < p ==> !seq_lt(lower_of(n), lower_of(#[trigger] s[j])),
        p < s.len() ==> seq_lt(lower_of(n), lower_of(s[p])),
    ensures
        insert_name_folded(s, n) == s.take(p) + seq![n] + s.skip(p),
    decreases s.len(),
{
    if s.len() == 0 {
        assert(insert_name_folded(s, n) =~= s.take(p) + seq![n] + s.skip(p));
    } else if p == 0 {
        assert(s.skip(0) =~= s);
        assert(insert_name_folded(s, n) =~= s.take(0) + seq![n] + s.skip(0));
    } else {
        let rest = s.drop_first();
        assert forall|j: int| 0 <= j < p - 1 implies !seq_lt(
            lower_of(n),
            lower_of(#[trigger] rest[j]),
        ) by {
            assert(rest[j] == s[j + 1]);
        }
        if p - 1 < rest.len() {
            assert(rest[p - 1] == s[p]);
        }
        lemma_insert_name_folded_at(rest, n, p - 1);
        assert(insert_name_folded(s, n) =~= s.take(p) + seq![n] + s.skip(p));
    }
}

/// Insert a name into a case-insensitively sorted vector, after every
/// name folding no higher.
fn insert_sorted_name_folded(v: &mut Vec<Vec<char>>, n: Vec<char>)
    ensures
        final(v).deep_view() == insert_name_folded(old(v).deep_view(), n@),
{
    let ghost dv = v.deep_view();
    let key = lower_chars(&n);
    let mut p: usize = 0;
    loop
        invariant
            p <= v@.len(),
            dv == v.deep_view(),
            key@ == lower_of(n@),
            forall|j: int| 0 <= j < p ==> !seq_lt(lower_of(n@), lower_of(#[trigger] dv[j])),
        ensures
            p <= v@.len(),
            dv == v.deep_view(),
            forall|j: int| 0 <= j < p ==> !seq_lt(lower_of(n@), lower_of(#[trigger] dv[j])),
            p < v@.len() ==> seq_lt(lower_of(n@), lower_of(dv[p as int])),
        decreases v@.len() - p,
    {
        if p == v.len() {
            break ;
        }
        proof {
            assert(dv[p as int] == v@[p as int]@);
        }
        let entry_key = lower_chars(&v[p]);
        if chars_cmp(&key, &entry_key) == -1 {
            break ;
        }
        p = p + 1;
    }
    proof {
        lemma_insert_name_folded_at(dv, n@, p as int);
    }
    v.insert(p, n);
    proof {
        assert(v.deep_view() =~~= dv.take(p as int) + seq![n@] + dv.skip(p as int));
    }
}

impl TableBuilder {
    /// The declared column names in case-insensitive sorted order, as
    /// usage text lists them.
    pub(crate) fn column_names_folded(&self) -> (r: Vec<Vec<char>>)
        ensures
            r.deep_view() == sort_names_folded(self@.outputs.map(|i: int, c: ColumnV| c.name)),
    {
        let ghost goal = self@.outputs.map(|i: int, c: ColumnV| c.name);
        let mut r: Vec<Vec<char>> = Vec::new();
        let mut i: usize = 0;
        proof {
            assert(r.deep_view() =~~= sort_names_folded(goal.take(0)));
        }
        while i < self.outputs.len()
            invariant
                i <= self.outputs@.len(),
                goal == cols_v(self.outputs@).map(|j: int, c: ColumnV| c.name),
                r.deep_view() == sort_names_folded(goal.take(i as int)),
            decreases self.outputs@.len() - i,
        {
            let n = copy_chars(&self.outputs[i].name);
            proof {
                assert(n@ == goal[i as int]);
                assert(goal.take(i + 1).drop_last() =~= goal.take(i as int));
                assert(goal.take(i + 1).last() == goal[i as int]);
            }
            insert_sorted_name_folded(&mut r, n);
            i = i + 1;
        }
        proof {
            assert(goal.take(goal.len() as int) =~= goal);
        }
        r
    }
}

/// The message text of a render error.
pub open spec fn table_error_text(e: TableError) -> Seq<char> {
    match e {
        TableError::MissingSortValue(n) => "missing sort value for column \""@ + n@ + "\""@,
        TableError::MixedColumnKinds(n) => "column \""@ + n@
            + "\" holds values of different shapes"@,
        TableError::UnknownOutputColumn(n) => "column \""@ + n@ + "\" is not defined"@,
        TableError::MissingOutputValue(n) => "missing output value for column \""@ + n@ + "\""@,
    }
}

impl TableError {
    /// The error rendered as one line of text.
    pub fn message(&self) -> (r: String)
        ensures
            r@ == table_error_text(*self),
    {
        match self {
            TableError::MissingSortValue(n) => {
                let mut s = String::new();
                s.append("missing sort value for column \"");
                s.append(n.as_str());
                s.append("\"");
                s
            },
            TableError::MixedColumnKinds(n) => {
                let mut s = String::new();
                s.append("column \"");
                s.append(n.as_str());
                s.append("\" holds values of different shapes");
                s
            },
            TableError::UnknownOutputColumn(n) => {
                let mut s = String::new();
                s.append("column \"");
                s.append(n.as_str());
                s.append("\" is not defined");
                s
            },
            TableError::MissingOutputValue(n) => {
                let mut s = String::new();
                s.append("missing output value for column \"");
                s.append(n.as_str());
                s.append("\"");
                s
            },
        }
    }
}

} // verus!
