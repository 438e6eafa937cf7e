//! CGATS.17 / IT8.7 measurement files: the in-memory table model, its
//! accessors, the text writer and the loader.
//!
//! A [`Profile`] holds one or more tables. Each table has a sheet type, an
//! ordered list of header properties, an optional `DATA_FORMAT` row of column
//! labels and a row-major matrix of cell strings. One table is *active*; the
//! accessors read and write it.

mod parse;
pub mod write;

use vstd::prelude::*;
use crate::error::Error;
use crate::text::{
    bin_digits, ci_eq, dec_digits, fmt_bin, fmt_u64, latin1, latin1_string, str_ci_eq, tb,
};


verus! {

/// Upper bound on a sheet-type string, in bytes (plus the terminator).
pub const MAXSTR: usize = 1024;
/// Upper bound on the number of tables in one stream (plus one).
pub const MAXTABLES: usize = 255;

/// How a property value is written back out.
#[derive(Clone, Copy, Debug, PartialEq, Eq, Structural)]
pub enum WriteMode {
    /// Bare token.
    Uncooked,
    /// Double-quoted.
    Stringify,
    /// `0x` + upper-case hex of the decimal value.
    Hexadecimal,
    /// `0b` + binary of the decimal value.
    Binary,
    /// `"subkey,value"` (one entry per subkey).
    Pair,
}

/// A header property (or a registered keyword).
pub struct KeyValue {
    keyword: String,
    subkey: Option<String>,
    value: Option<String>,
    write_as: WriteMode,
}

/// What a property is, as plain text.
pub struct KvView {
    pub keyword: Seq<char>,
    pub subkey: Option<Seq<char>>,
    pub value: Option<Seq<char>>,
    pub write_as: WriteMode,
}

pub open spec fn opt_view(o: Option<String>) -> Option<Seq<char>> {
    match o {
        Some(s) => Some(s@),
        None => None,
    }
}

impl View for KeyValue {
    type V = KvView;

    closed spec fn view(&self) -> KvView {
        KvView {
            keyword: self.keyword@,
            subkey: opt_view(self.subkey),
            value: opt_view(self.value),
            write_as: self.write_as,
        }
    }
}

pub open spec fn kvs_view(v: Seq<KeyValue>) -> Seq<KvView> {
    v.map_values(|kv: KeyValue| kv@)
}

pub open spec fn strs_view(v: Seq<Option<String>>) -> Seq<Option<Seq<char>>> {
    v.map_values(|s: Option<String>| opt_view(s))
}

pub open spec fn opt_strs_view(v: Option<Vec<Option<String>>>) -> Option<Seq<Option<Seq<char>>>> {
    match v {
        Some(x) => Some(strs_view(x@)),
        None => None,
    }
}

/// One table of a CGATS stream.
pub struct Table {
    sheet_type: String,
    n_samples: i32,
    n_patches: i32,
    sample_id: i32,
    header_list: Vec<KeyValue>,
    data_format: Option<Vec<Option<String>>>,
    data: Option<Vec<Option<String>>>,
}

/// A table as plain text and numbers.
pub struct TableView {
    pub sheet_type: Seq<char>,
    /// Columns (`NUMBER_OF_FIELDS` once allocated).
    pub n_samples: int,
    /// Rows (`NUMBER_OF_SETS` once allocated).
    pub n_patches: int,
    /// Column that holds the patch names (`SAMPLE_ID`).
    pub sample_id: int,
    pub header: Seq<KvView>,
    pub data_format: Option<Seq<Option<Seq<char>>>>,
    /// Row-major cells, `row * n_samples + column`.
    pub data: Option<Seq<Option<Seq<char>>>>,
}

impl View for Table {
    type V = TableView;

    closed spec fn view(&self) -> TableView {
        TableView {
            sheet_type: self.sheet_type@,
            n_samples: self.n_samples as int,
            n_patches: self.n_patches as int,
            sample_id: self.sample_id as int,
            header: kvs_view(self.header_list@),
            data_format: opt_strs_view(self.data_format),
            data: opt_strs_view(self.data),
        }
    }
}

pub open spec fn tables_view(v: Seq<Table>) -> Seq<TableView> {
    v.map_values(|t: Table| t@)
}

/// A loaded IT8 / CGATS object: its tables and the index of the active one.
pub struct Profile {
    tables: Vec<Table>,
    n_table: usize,
    valid_keywords: Vec<KeyValue>,
    valid_sample_id: Vec<KeyValue>,
}

/// What a CGATS object holds: the tables, which one is active, and the
/// registered keywords and sample ids.
pub struct ProfileView {
    pub tables: Seq<TableView>,
    pub n_table: int,
    /// The registered keywords, with how each is written.
    pub keywords: Seq<KvView>,
    /// The registered sample ids (column names).
    pub sample_ids: Seq<KvView>,
}

impl View for Profile {
    type V = ProfileView;

    closed spec fn view(&self) -> ProfileView {
        ProfileView {
            tables: tables_view(self.tables@),
            n_table: self.n_table as int,
            keywords: kvs_view(self.valid_keywords@),
            sample_ids: kvs_view(self.valid_sample_id@),
        }
    }
}

impl ProfileView {
    /// The active table.
    pub open spec fn cur(self) -> TableView {
        self.tables[self.n_table]
    }

    /// The same object with the active table replaced.
    pub open spec fn with_cur(self, t: TableView) -> ProfileView {
        ProfileView { tables: self.tables.update(self.n_table, t), ..self }
    }
}

// ------------------------------------------------------------- invariants

/// Counts stay in the range the allocators admit.
pub open spec fn table_wf(t: TableView) -> bool {
    &&& 0 <= t.n_samples <= 0x7ffe
    &&& 0 <= t.n_patches <= 0x7ffe
    &&& 0 <= t.sample_id <= 0x7ffe
}

/// A well-formed object's view is well formed: the table count is in range,
/// the active index names a table, and every table's counts are in range.
pub proof fn lemma_wf_view(p: &Profile)
    requires
        p.wf(),
    ensures
        view_wf(p@),
{
}

/// Replacing one table by a well-formed one keeps the object well formed.
pub proof fn lemma_wf_with_cur(p: ProfileView, t: TableView)
    requires
        view_wf(p),
        table_wf(t),
    ensures
        view_wf(p.with_cur(t)),
{
    assert forall|i: int| 0 <= i < p.with_cur(t).tables.len() implies #[trigger] table_wf(
        p.with_cur(t).tables[i],
    ) by {
        if i != p.n_table {
            assert(table_wf(p.tables[i]));
        }
    }
}

/// Putting the active table back unchanged gives the same object.
pub proof fn lemma_with_cur_same(p: ProfileView)
    requires
        0 <= p.n_table < p.tables.len(),
    ensures
        p.with_cur(p.cur()) == p,
{
    assert(p.tables.update(p.n_table, p.tables[p.n_table]) =~= p.tables);
}

/// Replacing the active table twice keeps only the second replacement.
pub proof fn lemma_with_cur_twice(p: ProfileView, a: TableView, b: TableView)
    requires
        0 <= p.n_table < p.tables.len(),
    ensures
        p.with_cur(a).with_cur(b) == p.with_cur(b),
{
    assert(p.tables.update(p.n_table, a).update(p.n_table, b) =~= p.tables.update(p.n_table, b));
}

pub open spec fn view_wf(p: ProfileView) -> bool {
    &&& 1 <= p.tables.len() <= MAXTABLES - 1
    &&& 0 <= p.n_table < p.tables.len()
    &&& forall|i: int| 0 <= i < p.tables.len() ==> #[trigger] table_wf(p.tables[i])
}

impl Profile {
    /// The table count is in range and the active index names a table.
    pub closed spec fn wf(&self) -> bool {
        view_wf(self@)
    }
}

// ---------------------------------------------------------- property lists

pub open spec fn starts_hash(b: Seq<u8>) -> bool {
    b.len() > 0 && b[0] == 35u8
}

/// A property entry answers to `key` (comment keys never match).
pub open spec fn key_hits(key: Seq<u8>, kv: KvView) -> bool {
    !starts_hash(key) && ci_eq(key, tb(kv.keyword))
}

/// First entry at or after `i` that answers to `key`.
pub open spec fn find_key_from(list: Seq<KvView>, key: Seq<u8>, i: int) -> Option<int>
    decreases list.len() - i,
{
    if i < 0 || i >= list.len() {
        None
    } else if key_hits(key, list[i]) {
        Some(i)
    } else {
        find_key_from(list, key, i + 1)
    }
}

/// An entry of the pair chain of `key` whose subkey is `sk`.
pub open spec fn sub_hits(key: Seq<u8>, sk: Seq<u8>, kv: KvView) -> bool {
    match kv.subkey {
        Some(e) => ci_eq(tb(kv.keyword), key) && ci_eq(sk, tb(e)),
        None => false,
    }
}

pub open spec fn find_sub_from(list: Seq<KvView>, key: Seq<u8>, sk: Seq<u8>, i: int) -> Option<
    int,
>
    decreases list.len() - i,
{
    if i < 0 || i >= list.len() {
        None
    } else if sub_hits(key, sk, list[i]) {
        Some(i)
    } else {
        find_sub_from(list, key, sk, i + 1)
    }
}

/// The entry a lookup of `key` (and, for pair properties, `sub`) finds.
pub open spec fn locate(list: Seq<KvView>, key: Seq<u8>, sub: Option<Seq<u8>>) -> Option<int> {
    match find_key_from(list, key, 0) {
        None => None,
        Some(idx) => match sub {
            None => Some(idx),
            Some(sk) => find_sub_from(list, key, sk, idx),
        },
    }
}

pub open spec fn opt_tb(o: Option<Seq<char>>) -> Option<Seq<u8>> {
    match o {
        Some(s) => Some(tb(s)),
        None => None,
    }
}

/// The counters a stream may not redefine.
pub open spec fn is_counter(key: Seq<u8>) -> bool {
    ci_eq(key, tb("NUMBER_OF_FIELDS"@)) || ci_eq(key, tb("NUMBER_OF_SETS"@))
}

/// Adding or updating a property: an existing entry keeps its keyword and
/// subkey and takes the new value and mode; a new one goes to the end. A
/// counter that is already present is refused.
pub open spec fn add_result(
    list: Seq<KvView>,
    key: Seq<char>,
    sub: Option<Seq<char>>,
    value: Option<Seq<char>>,
    mode: WriteMode,
) -> (bool, Seq<KvView>) {
    match locate(list, tb(key), opt_tb(sub)) {
        Some(i) => if is_counter(tb(key)) {
            (false, list)
        } else {
            (true, list.update(i, KvView { value: value, write_as: mode, ..list[i] }))
        },
        None => (true, list.push(KvView { keyword: key, subkey: sub, value: value, write_as: mode })),
    }
}

/// The value of a header property.
pub open spec fn prop_value(t: TableView, key: Seq<u8>) -> Option<Seq<char>> {
    match locate(t.header, key, None) {
        Some(i) => t.header[i].value,
        None => None,
    }
}

/// The value of one subkey of a pair property.
pub open spec fn prop_multi(t: TableView, key: Seq<u8>, sk: Seq<u8>) -> Option<Seq<char>> {
    match locate(t.header, key, Some(sk)) {
        Some(i) => t.header[i].value,
        None => None,
    }
}

proof fn lemma_find_key_range(list: Seq<KvView>, key: Seq<u8>, i: int)
    ensures
        find_key_from(list, key, i) matches Some(j) ==> i <= j < list.len() && key_hits(key, list[j]),
    decreases list.len() - i,
{
    if 0 <= i < list.len() && !key_hits(key, list[i]) {
        lemma_find_key_range(list, key, i + 1);
    }
}

proof fn lemma_find_sub_range(list: Seq<KvView>, key: Seq<u8>, sk: Seq<u8>, i: int)
    ensures
        find_sub_from(list, key, sk, i) matches Some(j) ==> i <= j < list.len() && sub_hits(
            key,
            sk,
            list[j],
        ),
    decreases list.len() - i,
{
    if 0 <= i < list.len() && !sub_hits(key, sk, list[i]) {
        lemma_find_sub_range(list, key, sk, i + 1);
    }
}

/// Where a lookup lands is an index of the list.
proof fn lemma_locate_range(list: Seq<KvView>, key: Seq<u8>, sub: Option<Seq<u8>>)
    ensures
        locate(list, key, sub) matches Some(j) ==> 0 <= j < list.len(),
{
    lemma_find_key_range(list, key, 0);
    if let Some(idx) = find_key_from(list, key, 0) {
        if let Some(sk) = sub {
            lemma_find_sub_range(list, key, sk, idx);
        }
    }
}

proof fn lemma_find_key_update(list: Seq<KvView>, key: Seq<u8>, i: int, at: int, kv: KvView)
    requires
        0 <= at < list.len(),
        kv.keyword == list[at].keyword,
    ensures
        find_key_from(list.update(at, kv), key, i) == find_key_from(list, key, i),
    decreases list.len() - i,
{
    if 0 <= i < list.len() {
        lemma_find_key_update(list, key, i + 1, at, kv);
    }
}

proof fn lemma_find_key_push(list: Seq<KvView>, key: Seq<u8>, i: int, kv: KvView)
    requires
        0 <= i <= list.len(),
    ensures
        find_key_from(list.push(kv), key, i) == match find_key_from(list, key, i) {
            Some(j) => Some(j),
            None => if key_hits(key, kv) {
                Some(list.len() as int)
            } else {
                None
            },
        },
    decreases list.len() - i,
{
    if i < list.len() {
        assert(list.push(kv)[i] == list[i]);
        lemma_find_key_push(list, key, i + 1, kv);
    } else {
        assert(list.push(kv)[i] == kv);
        assert(find_key_from(list.push(kv), key, i + 1) is None);
    }
}

proof fn lemma_ci_eq_trans(a: Seq<u8>, b: Seq<u8>, c: Seq<u8>)
    requires
        ci_eq(a, b),
        ci_eq(c, b),
    ensures
        ci_eq(a, c),
{
    assert forall|i: int| 0 <= i < a.len() implies #[trigger] crate::text::upper(a[i]) == crate::text::upper(c[i]) by {
        assert(crate::text::upper(a[i]) == crate::text::upper(b[i]));
        assert(crate::text::upper(c[i]) == crate::text::upper(b[i]));
    }
}

proof fn lemma_ci_eq_refl(a: Seq<u8>)
    ensures
        ci_eq(a, a),
{
}

/// A property reads back what was written: once `set_property_str(key,
/// val)` (or any write of `key` without subkey) succeeds, `get_property` of
/// the same key gives `val`, and every key that does not equal it ignoring
/// ASCII case reads as before. Keys starting with `#` are comments, which
/// lookups never match.
pub proof fn lemma_property_read_after_write(
    p: ProfileView,
    key: Seq<char>,
    val: Seq<char>,
    mode: WriteMode,
    other: Seq<u8>,
)
    requires
        view_wf(p),
        !starts_hash(tb(key)),
    ensures
        ({
            let (ok, h) = add_result(p.cur().header, key, None, Some(val), mode);
            let q = p.with_cur(TableView { header: h, ..p.cur() });
            &&& ok ==> prop_value(q.cur(), tb(key)) == Some(val)
            &&& !ci_eq(other, tb(key)) ==> prop_value(q.cur(), other) == prop_value(p.cur(), other)
        }),
{
    let list = p.cur().header;
    let k = tb(key);
    let (ok, h) = add_result(list, key, None, Some(val), mode);
    let q = p.with_cur(TableView { header: h, ..p.cur() });
    assert(q.cur() == TableView { header: h, ..p.cur() });
    lemma_find_key_range(list, k, 0);
    lemma_find_key_range(list, other, 0);
    match find_key_from(list, k, 0) {
        Some(i) => {
            if !is_counter(k) {
                let kv = KvView { value: Some(val), write_as: mode, ..list[i] };
                lemma_find_key_update(list, k, 0, i, kv);
                lemma_find_key_update(list, other, 0, i, kv);
                assert(h[i] == kv);
                if !ci_eq(other, k) {
                    if let Some(j) = find_key_from(list, other, 0) {
                        if j == i {
                            lemma_ci_eq_trans(other, tb(list[i].keyword), k);
                        }
                        assert(h[j] == list[j]);
                    }
                }
            }
        },
        None => {
            let kv = KvView { keyword: key, subkey: None, value: Some(val), write_as: mode };
            lemma_ci_eq_refl(k);
            lemma_find_key_push(list, k, 0, kv);
            lemma_find_key_push(list, other, 0, kv);
            assert(h[list.len() as int] == kv);
            if let Some(j) = find_key_from(list, other, 0) {
                assert(h[j] == list[j]);
            }
        },
    }
}

/// A cell reads back what was written: once `set_data_rowcol(row, col,
/// val)` succeeds, `get_data_rowcol(row, col)` gives `val` when the cell
/// lies inside the table's rows, columns and cell storage, and every cell
/// at another position of the row-major storage reads as before.
pub proof fn lemma_cell_read_after_write(t: TableView, row: int, col: int, val: Seq<char>, r2: int, c2: int)
    ensures
        ({
            let (ok, t2) = set_cell_spec(t, row, col, val);
            &&& (ok && 0 <= row < t2.n_patches && 0 <= col < t2.n_samples && t2.data is Some
                && row * t2.n_samples + col < t2.data->0.len()) ==> cell_at(t2, row, col) == Some(val)
            &&& (ok && r2 * t2.n_samples + c2 != row * t2.n_samples + col) ==> cell_at(t2, r2, c2)
                == cell_at(t, r2, c2)
        }),
{
    let (ok, t2) = set_cell_spec(t, row, col, val);
    if ok {
        let t1 = alloc_set_spec(t)->0;
        let d1 = t1.data.unwrap();
        let idx = row * t1.n_samples + col;
        if t.data is None {
            assert(d1 == nulls(((t1.n_samples + 1) * (t1.n_patches + 1)) as nat));
            if 0 <= r2 < t2.n_patches && 0 <= c2 < t2.n_samples {
                let j = r2 * t2.n_samples + c2;
                if j < d1.len() && j != idx {
                    assert(t2.data->0[j] == d1[j]);
                }
            }
        }
    }
}

proof fn lemma_find_key_none(list: Seq<KvView>, key: Seq<u8>, i: int)
    requires
        0 <= i,
    ensures
        find_key_from(list, key, i) is None ==> forall|j: int| i <= j < list.len() ==> !key_hits(key, #[trigger] list[j]),
    decreases list.len() - i,
{
    if i < list.len() && !key_hits(key, list[i]) {
        lemma_find_key_none(list, key, i + 1);
    }
}

/// Writing a property without subkey is refused exactly when the key is a
/// counter (`NUMBER_OF_FIELDS`, `NUMBER_OF_SETS`) that the header already
/// holds (comment keys are never held); a refused write leaves the object
/// as it was, and a write that is taken reads back (for keys that are not
/// comments).
pub proof fn lemma_property_write_outcome(p: ProfileView, key: Seq<char>, val: Seq<char>, mode: WriteMode)
    requires
        view_wf(p),
    ensures
        ({
            let (ok, h) = add_result(p.cur().header, key, None, Some(val), mode);
            let q = p.with_cur(TableView { header: h, ..p.cur() });
            let present = exists|i: int|
                0 <= i < p.cur().header.len() && key_hits(tb(key), #[trigger] p.cur().header[i]);
            &&& ok == !(present && is_counter(tb(key)))
            &&& !ok ==> q == p
            &&& ok && !starts_hash(tb(key)) ==> prop_value(q.cur(), tb(key)) == Some(val)
        }),
{
    let list = p.cur().header;
    let k = tb(key);
    let (ok, h) = add_result(list, key, None, Some(val), mode);
    lemma_find_key_range(list, k, 0);
    lemma_find_key_none(list, k, 0);
    if !ok {
        assert(h == list);
        assert((TableView { header: h, ..p.cur() }) == p.cur());
        lemma_with_cur_same(p);
    }
    if !starts_hash(k) {
        lemma_property_read_after_write(p, key, val, mode, k);
    }
}

/// A cell inside the rows and columns of a table whose cells are allocated
/// (as the allocator lays them out) can always be written, reads back what
/// was written, and every other cell of the table reads as before; a
/// position past the rows or columns (or negative) is refused and leaves
/// the table as it was.
pub proof fn lemma_cell_write_outcome(t: TableView, row: int, col: int, val: Seq<char>, r2: int, c2: int)
    requires
        table_wf(t),
        t.data is Some,
        t.data->0.len() == (t.n_samples + 1) * (t.n_patches + 1),
    ensures
        ({
            let (ok, t2) = set_cell_spec(t, row, col, val);
            &&& (0 <= row < t.n_patches && 0 <= col < t.n_samples) ==> ok && cell_at(t2, row, col) == Some(val)
                && ((r2 != row || c2 != col) ==> cell_at(t2, r2, c2) == cell_at(t, r2, c2))
            &&& (row < 0 || col < 0 || row > t.n_patches || col > t.n_samples) ==> !ok && t2 == t
        }),
{
    let (ok, t2) = set_cell_spec(t, row, col, val);
    let ns = t.n_samples;
    let np = t.n_patches;
    if 0 <= row < np && 0 <= col < ns {
        assert(row * ns + col < (ns + 1) * (np + 1)) by (nonlinear_arith)
            requires
                0 <= row < np,
                0 <= col < ns,
        ;
        assert(0 <= row * ns + col) by (nonlinear_arith)
            requires
                0 <= row,
                0 <= col,
                0 <= ns,
        ;
        if (r2 != row || c2 != col) && 0 <= r2 < np && 0 <= c2 < ns {
            assert(r2 * ns + c2 != row * ns + col) by (nonlinear_arith)
                requires
                    0 <= c2 < ns,
                    0 <= col < ns,
                    r2 != row || c2 != col,
            ;
            assert(0 <= r2 * ns + c2) by (nonlinear_arith)
                requires
                    0 <= r2,
                    0 <= c2,
                    0 <= ns,
            ;
        }
    }
}

fn opt_str_to_string(o: Option<&str>) -> (r: Option<String>)
    ensures
        opt_view(r) == match o {
            Some(s) => Some(s@),
            None => None::<Seq<char>>,
        },
{
    match o {
        Some(s) => Some(s.to_owned()),
        None => None,
    }
}

fn find_key(list: &Vec<KeyValue>, key: &str) -> (r: Option<usize>)
    ensures
        r == match find_key_from(kvs_view(list@), tb(key@), 0) {
            Some(i) => Some(i as usize),
            None => None::<usize>,
        },
        r matches Some(i) ==> i < list.len(),
{
    let ghost lv = kvs_view(list@);
    let kb = key.as_bytes();
    let hash = kb.len() > 0 && kb[0] == 35u8;
    let mut i: usize = 0;
    while i < list.len()
        invariant
            i <= list.len(),
            lv == kvs_view(list@),
            kb@ == tb(key@),
            hash == starts_hash(kb@),
            find_key_from(lv, kb@, 0) == find_key_from(lv, kb@, i as int),
        decreases list.len() - i,
    {
        assert(lv[i as int].keyword == list@[i as int].keyword@);
        if !hash && str_ci_eq(key, list[i].keyword.as_str()) {
            return Some(i);
        }
        i += 1;
    }
    None
}

fn find_sub(list: &Vec<KeyValue>, key: &str, sk: &str, idx: usize) -> (r: Option<usize>)
    requires
        idx <= list.len(),
    ensures
        r == match find_sub_from(kvs_view(list@), tb(key@), tb(sk@), idx as int) {
            Some(i) => Some(i as usize),
            None => None::<usize>,
        },
        r matches Some(i) ==> i < list.len(),
{
    let ghost lv = kvs_view(list@);
    let mut j: usize = idx;
    while j < list.len()
        invariant
            idx <= j <= list.len(),
            lv == kvs_view(list@),
            find_sub_from(lv, tb(key@), tb(sk@), idx as int) == find_sub_from(
                lv,
                tb(key@),
                tb(sk@),
                j as int,
            ),
        decreases list.len() - j,
    {
        assert(lv[j as int].keyword == list@[j as int].keyword@);
        assert(lv[j as int].subkey == opt_view(list@[j as int].subkey));
        match &list[j].subkey {
            Some(existing) => {
                if str_ci_eq(list[j].keyword.as_str(), key) && str_ci_eq(sk, existing.as_str()) {
                    return Some(j);
                }
            },
            None => {},
        }
        j += 1;
    }
    None
}

/// The index of the entry a lookup finds.
fn is_available_on_list(list: &Vec<KeyValue>, key: &str, subkey: Option<&str>) -> (r: Option<
    usize,
>)
    ensures
        r == match locate(
            kvs_view(list@),
            tb(key@),
            match subkey {
                Some(s) => Some(tb(s@)),
                None => None::<Seq<u8>>,
            },
        ) {
            Some(i) => Some(i as usize),
            None => None::<usize>,
        },
        r matches Some(i) ==> i < list.len() && locate(
            kvs_view(list@),
            tb(key@),
            match subkey {
                Some(s) => Some(tb(s@)),
                None => None::<Seq<u8>>,
            },
        ) == Some(i as int),
{
    proof {
        lemma_find_key_range(kvs_view(list@), tb(key@), 0);
    }
    match find_key(list, key) {
        None => None,
        Some(idx) => match subkey {
            None => Some(idx),
            Some(sk) => {
                proof {
                    lemma_find_sub_range(kvs_view(list@), tb(key@), tb(sk@), idx as int);
                }
                find_sub(list, key, sk, idx)
            },
        },
    }
}

/// Add or update a property; `false` when a counter would be
/// redefined.
fn add_to_list(
    list: &mut Vec<KeyValue>,
    key: &str,
    subkey: Option<&str>,
    value: Option<&str>,
    write_as: WriteMode,
) -> (ok: bool)
    ensures
        (ok, kvs_view(final(list)@)) == add_result(
            kvs_view(old(list)@),
            key@,
            match subkey {
                Some(s) => Some(s@),
                None => None::<Seq<char>>,
            },
            match value {
                Some(s) => Some(s@),
                None => None::<Seq<char>>,
            },
            write_as,
        ),
{
    let ghost sub_v = match subkey {
        Some(s) => Some(s@),
        None => None::<Seq<char>>,
    };
    let ghost val_v = match value {
        Some(s) => Some(s@),
        None => None::<Seq<char>>,
    };
    assert(opt_tb(sub_v) == match subkey {
        Some(s) => Some(tb(s@)),
        None => None::<Seq<u8>>,
    });
    let ghost old_v = kvs_view(list@);
    proof {
        lemma_locate_range(old_v, tb(key@), opt_tb(sub_v));
    }
    match is_available_on_list(list, key, subkey) {
        Some(i) => {
            if str_ci_eq(key, "NUMBER_OF_FIELDS") || str_ci_eq(key, "NUMBER_OF_SETS") {
                return false;
            }
            let nv = opt_str_to_string(value);
            list[i].write_as = write_as;
            list[i].value = nv;
            assert(kvs_view(list@) == old_v.update(
                i as int,
                KvView { value: val_v, write_as: write_as, ..old_v[i as int] },
            ));
            true
        },
        None => {
            let kv = KeyValue {
                keyword: key.to_owned(),
                subkey: opt_str_to_string(subkey),
                value: opt_str_to_string(value),
                write_as,
            };
            list.push(kv);
            assert(kvs_view(list@) == old_v.push(
                KvView { keyword: key@, subkey: sub_v, value: val_v, write_as: write_as },
            ));
            true
        },
    }
}

} // verus!

verus! {

// ---------------------------------------------------------------- numbers

pub open spec fn is_digit(c: u8) -> bool {
    48 <= c <= 57
}

pub open spec fn skip_blanks(b: Seq<u8>, i: int) -> int
    decreases b.len() - i,
{
    if 0 <= i < b.len() && (b[i] == 32u8 || b[i] == 9u8) {
        skip_blanks(b, i + 1)
    } else {
        i
    }
}

/// Decimal digits from `i`, saturating at 2^31 as C `atoi` does on i64.
pub open spec fn acc_digits(b: Seq<u8>, i: int, acc: int) -> int
    decreases b.len() - i,
{
    if 0 <= i < b.len() && is_digit(b[i]) {
        let n = acc * 10 + (b[i] - 48);
        acc_digits(b, i + 1, if n > 0x8000_0000 { 0x8000_0000 } else { n })
    } else {
        acc
    }
}

/// C `atoi`: blanks, an optional sign, leading digits; saturated to `i32`.
pub open spec fn atoi_spec(b: Seq<u8>) -> int {
    let i0 = skip_blanks(b, 0);
    let neg = i0 < b.len() && b[i0] == 45u8;
    let i1 = if i0 < b.len() && (b[i0] == 45u8 || b[i0] == 43u8) {
        i0 + 1
    } else {
        i0
    };
    let n = acc_digits(b, i1, 0);
    let v = if neg {
        -n
    } else {
        n
    };
    if v > 0x7fff_ffff {
        0x7fff_ffff
    } else if v < -0x8000_0000 {
        -0x8000_0000
    } else {
        v
    }
}

/// `satoi`: `atoi` clamped to ±0x7ffffff0; 0 when there is no text.
pub open spec fn satoi_spec(o: Option<Seq<u8>>) -> int {
    match o {
        None => 0,
        Some(b) => {
            let n = atoi_spec(b);
            if n > 0x7fff_fff0 {
                0x7fff_fff0
            } else if n < -0x7fff_fff0 {
                -0x7fff_fff0
            } else {
                n
            }
        },
    }
}

proof fn lemma_skip_blanks_range(b: Seq<u8>, i: int)
    requires
        0 <= i,
    ensures
        i <= skip_blanks(b, i),
        skip_blanks(b, i) <= b.len() || skip_blanks(b, i) == i,
    decreases b.len() - i,
{
    if 0 <= i < b.len() && (b[i] == 32u8 || b[i] == 9u8) {
        lemma_skip_blanks_range(b, i + 1);
    }
}

proof fn lemma_acc_digits_range(b: Seq<u8>, i: int, acc: int)
    requires
        0 <= acc <= 0x8000_0000,
    ensures
        0 <= acc_digits(b, i, acc) <= 0x8000_0000,
    decreases b.len() - i,
{
    if 0 <= i < b.len() && is_digit(b[i]) {
        let n = acc * 10 + (b[i] - 48);
        lemma_acc_digits_range(b, i + 1, if n > 0x8000_0000 { 0x8000_0000 } else { n });
    }
}

/// C `atoi` over the bytes of `s`.
fn c_atoi(s: &str) -> (r: i32)
    ensures
        r as int == atoi_spec(tb(s@)),
{
    let b = s.as_bytes();
    let mut i: usize = 0;
    while i < b.len() && (b[i] == 32u8 || b[i] == 9u8)
        invariant
            i <= b.len(),
            skip_blanks(b@, 0) == skip_blanks(b@, i as int),
        decreases b.len() - i,
    {
        i += 1;
    }
    let ghost i0 = i as int;
    let mut neg = false;
    if i < b.len() && (b[i] == 45u8 || b[i] == 43u8) {
        if b[i] == 45u8 {
            neg = true;
        }
        i += 1;
    }
    let mut n: i64 = 0;
    while i < b.len() && 48u8 <= b[i] && b[i] <= 57u8
        invariant
            i <= b.len(),
            0 <= n <= 0x8000_0000,
            acc_digits(
                b@,
                if i0 < b@.len() && (b@[i0] == 45u8 || b@[i0] == 43u8) {
                    i0 + 1
                } else {
                    i0
                },
                0,
            ) == acc_digits(b@, i as int, n as int),
        decreases b.len() - i,
    {
        n = n * 10 + (b[i] - 48u8) as i64;
        if n > 0x8000_0000i64 {
            n = 0x8000_0000i64;
        }
        i += 1;
    }
    if neg {
        n = -n;
    }
    if n > 0x7fff_ffffi64 {
        0x7fff_ffffi32
    } else if n < -0x8000_0000i64 {
        -0x8000_0000i32
    } else {
        n as i32
    }
}

pub open spec fn opt_bytes(o: Option<&str>) -> Option<Seq<u8>> {
    match o {
        Some(s) => Some(tb(s@)),
        None => None,
    }
}

/// `satoi`.
fn satoi(b: Option<&str>) -> (r: i32)
    ensures
        r as int == satoi_spec(opt_bytes(b)),
{
    match b {
        None => 0,
        Some(s) => {
            let n = c_atoi(s);
            if n > 0x7fff_fff0 {
                0x7fff_fff0
            } else if n < -0x7fff_fff0 {
                -0x7fff_fff0
            } else {
                n
            }
        },
    }
}

/// The binary text `satob` gives for a value: the `atoi` value read as
/// unsigned.
pub open spec fn satob_spec(o: Option<Seq<u8>>) -> Seq<u8> {
    match o {
        None => seq![48u8],
        Some(b) => bin_digits((atoi_spec(b) as i32) as u32 as nat),
    }
}

/// `satob`: a decimal string as binary digits.
fn satob(v: Option<&str>) -> (r: Vec<u8>)
    ensures
        r@ == satob_spec(opt_bytes(v)),
{
    match v {
        None => {
            let mut r: Vec<u8> = Vec::new();
            r.push(48u8);
            r
        },
        Some(s) => {
            let x = c_atoi(s) as u32;
            fmt_bin(x)
        },
    }
}

} // verus!

verus! {

// ---------------------------------------------------------------- cells

/// The label of column `n`.
pub open spec fn df_at(t: TableView, n: int) -> Option<Seq<char>> {
    match t.data_format {
        None => None,
        Some(df) => if 0 <= n < df.len() {
            df[n]
        } else {
            None
        },
    }
}

/// The cell at row `n_set`, column `n_field`.
pub open spec fn cell_at(t: TableView, n_set: int, n_field: int) -> Option<Seq<char>> {
    if n_set < 0 || n_set >= t.n_patches || n_field < 0 || n_field >= t.n_samples {
        None
    } else {
        match t.data {
            None => None,
            Some(d) => {
                let idx = n_set * t.n_samples + n_field;
                if idx < d.len() {
                    d[idx]
                } else {
                    None
                }
            },
        }
    }
}

pub open spec fn nulls(n: nat) -> Seq<Option<Seq<char>>> {
    Seq::new(n, |i: int| None::<Seq<char>>)
}

pub open spec fn fields_prop(t: TableView) -> int {
    satoi_spec(opt_tb(prop_value(t, tb("NUMBER_OF_FIELDS"@))))
}

pub open spec fn sets_prop(t: TableView) -> int {
    satoi_spec(opt_tb(prop_value(t, tb("NUMBER_OF_SETS"@))))
}

/// A table keeps its label row, or gets an empty one
/// sized by `NUMBER_OF_FIELDS` (which must be 1..=0x7ffe).
pub open spec fn alloc_format_spec(t: TableView) -> Option<TableView> {
    if t.data_format is Some {
        Some(t)
    } else {
        let n = fields_prop(t);
        if n <= 0 || n > 0x7ffe {
            None
        } else {
            Some(TableView { n_samples: n, data_format: Some(nulls((n + 1) as nat)), ..t })
        }
    }
}

/// A table keeps its cells, or gets an empty matrix sized
/// by `NUMBER_OF_FIELDS` x `NUMBER_OF_SETS` (each 0..=0x7ffe, product at
/// most 200000).
pub open spec fn alloc_set_spec(t: TableView) -> Option<TableView> {
    if t.data is Some {
        Some(t)
    } else {
        let ns = fields_prop(t);
        let np = sets_prop(t);
        if !(0 <= ns <= 0x7ffe) || !(0 <= np <= 0x7ffe) || np * ns > 200000 {
            None
        } else {
            Some(
                TableView {
                    n_samples: ns,
                    n_patches: np,
                    data: Some(nulls(((ns + 1) * (np + 1)) as nat)),
                    ..t
                },
            )
        }
    }
}

/// The label of column `n`.
pub open spec fn set_format_spec(t: TableView, n: int, label: Seq<char>) -> (bool, TableView) {
    match alloc_format_spec(t) {
        None => (false, t),
        Some(t1) => if n < 0 || n >= t1.n_samples {
            (false, t1)
        } else {
            let df = t1.data_format.unwrap();
            if n < df.len() {
                (true, TableView { data_format: Some(df.update(n, Some(label))), ..t1 })
            } else {
                (true, t1)
            }
        },
    }
}

/// The cell at row `n_set`, column `n_field`. Rows up to and
/// including `n_patches` and columns up to and including `n_samples` are
/// accepted.
pub open spec fn set_cell_spec(t: TableView, n_set: int, n_field: int, val: Seq<char>) -> (
    bool,
    TableView,
) {
    match alloc_set_spec(t) {
        None => (false, t),
        Some(t1) => if n_set > t1.n_patches || n_set < 0 || n_field > t1.n_samples || n_field
            < 0 {
            (false, t1)
        } else {
            let d = t1.data.unwrap();
            let idx = n_set * t1.n_samples + n_field;
            if idx < d.len() {
                (true, TableView { data: Some(d.update(idx, Some(val))), ..t1 })
            } else {
                (true, t1)
            }
        },
    }
}

/// The first column at or after `i` whose label is `sample`.
pub open spec fn sample_from(t: TableView, sample: Seq<u8>, i: int) -> int
    decreases t.n_samples - i,
{
    if i < 0 || i >= t.n_samples {
        -1
    } else if df_at(t, i) matches Some(f) && ci_eq(tb(f), sample) {
        i
    } else {
        sample_from(t, sample, i + 1)
    }
}

/// The first row at or after `i` whose `SAMPLE_ID` cell is `patch`.
pub open spec fn patch_from(t: TableView, patch: Seq<u8>, i: int) -> int
    decreases t.n_patches - i,
{
    if i < 0 || i >= t.n_patches {
        -1
    } else if cell_at(t, i, t.sample_id) matches Some(d) && ci_eq(tb(d), patch) {
        i
    } else {
        patch_from(t, patch, i + 1)
    }
}

pub open spec fn str_opt_view(o: Option<&str>) -> Option<Seq<char>> {
    match o {
        Some(s) => Some(s@),
        None => None,
    }
}

pub open spec fn empty_table(sheet: Seq<char>) -> TableView {
    TableView {
        sheet_type: sheet,
        n_samples: 0,
        n_patches: 0,
        sample_id: 0,
        header: Seq::empty(),
        data_format: None,
        data: None,
    }
}

impl Table {
    fn new() -> (t: Table)
        ensures
            t@ == empty_table(Seq::empty()),
    {
        let t = Table {
            sheet_type: String::new(),
            n_samples: 0,
            n_patches: 0,
            sample_id: 0,
            header_list: Vec::new(),
            data_format: None,
            data: None,
        };
        assert(kvs_view(t.header_list@) == Seq::<KvView>::empty());
        t
    }
}

/// Store `val` at `idx` when `idx` is in range.
fn put_cell(v: &mut Vec<Option<String>>, idx: usize, val: String)
    ensures
        strs_view(final(v)@) == if idx < old(v)@.len() {
            strs_view(old(v)@).update(idx as int, Some(val@))
        } else {
            strs_view(old(v)@)
        },
{
    if idx < v.len() {
        let ghost pre = v@;
        v.set(idx, Some(val));
        assert(strs_view(v@) =~= strs_view(pre).update(idx as int, Some(val@)));
    }
}

fn null_cells(n: usize) -> (v: Vec<Option<String>>)
    ensures
        strs_view(v@) == nulls(n as nat),
{
    let mut v: Vec<Option<String>> = Vec::new();
    let mut i: usize = 0;
    while i < n
        invariant
            i <= n,
            v@.len() == i,
            forall|j: int| 0 <= j < i ==> v@[j] is None,
        decreases n - i,
    {
        v.push(None);
        i += 1;
    }
    assert(strs_view(v@) == nulls(n as nat));
    v
}

impl Profile {
    /// A fresh object: one empty table of sheet type `CGATS.17` and the
    /// predefined keywords and sample ids registered.
    fn new() -> (p: Profile)
        ensures
            p.wf(),
            p@.tables == seq![empty_table("CGATS.17"@)],
            p@.n_table == 0,
            p@.keywords == registered_keywords(predefined_property_list(), predefined_property_list().len() as int),
            p@.sample_ids == registered_ids(predefined_sample_id_list(), predefined_sample_id_list().len() as int),
    {
        let mut t = Table::new();
        t.sheet_type = "CGATS.17".to_owned();
        let mut tables: Vec<Table> = Vec::new();
        tables.push(t);
        let mut valid_keywords: Vec<KeyValue> = Vec::new();
        let mut valid_sample_id: Vec<KeyValue> = Vec::new();
        let props = predefined_properties();
        let mut i: usize = 0;
        while i < props.len()
            invariant
                props@ == predefined_property_list(),
                i <= props.len(),
                kvs_view(valid_keywords@) == registered_keywords(props@, i as int),
            decreases props.len() - i,
        {
            let (k, w) = props[i];
            add_to_list(&mut valid_keywords, k, None, None, w);
            i += 1;
        }
        let ids = predefined_sample_ids();
        let mut j: usize = 0;
        while j < ids.len()
            invariant
                ids@ == predefined_sample_id_list(),
                j <= ids.len(),
                kvs_view(valid_sample_id@) == registered_ids(ids@, j as int),
            decreases ids.len() - j,
        {
            add_to_list(&mut valid_sample_id, ids[j], None, None, WriteMode::Uncooked);
            j += 1;
        }
        let p = Profile { tables, n_table: 0, valid_keywords, valid_sample_id };
        assert(tables_view(p.tables@) == seq![empty_table("CGATS.17"@)]);
        p
    }

    /// Append an empty table unless the stream is full.
    fn alloc_table(&mut self) -> (ok: bool)
        requires
            old(self).wf(),
        ensures
            final(self).wf(),
            ok == (old(self)@.tables.len() < MAXTABLES - 1),
            final(self)@.n_table == old(self)@.n_table,
            final(self)@.keywords == old(self)@.keywords,
            final(self)@.sample_ids == old(self)@.sample_ids,
            final(self)@.tables == if ok {
                old(self)@.tables.push(empty_table(Seq::empty()))
            } else {
                old(self)@.tables
            },
    {
        if self.tables.len() >= MAXTABLES - 1 {
            return false;
        }
        self.tables.push(Table::new());
        assert(tables_view(self.tables@) == tables_view(old(self).tables@).push(
            empty_table(Seq::empty()),
        ));
        true
    }

    fn table(&self) -> (t: &Table)
        requires
            self.wf(),
        ensures
            t@ == self@.cur(),
            table_wf(t@),
    {
        &self.tables[self.n_table]
    }
}

/// The list that registering the first `n` entries of `l`, in order, into an
/// empty list gives.
pub open spec fn registered_keywords(l: Seq<(&'static str, WriteMode)>, n: int) -> Seq<KvView>
    decreases n,
{
    if n <= 0 {
        Seq::empty()
    } else {
        add_result(registered_keywords(l, n - 1), l[n - 1].0@, None, None, l[n - 1].1).1
    }
}

/// The list that registering the first `n` names of `l`, in order and
/// written as they are, into an empty list gives.
pub open spec fn registered_ids(l: Seq<&'static str>, n: int) -> Seq<KvView>
    decreases n,
{
    if n <= 0 {
        Seq::empty()
    } else {
        add_result(registered_ids(l, n - 1), l[n - 1]@, None, None, WriteMode::Uncooked).1
    }
}

/// The predefined keywords, with how each is written, in registration order.
pub open spec fn predefined_property_list() -> Seq<(&'static str, WriteMode)> {
    seq![
        ("NUMBER_OF_FIELDS", WriteMode::Uncooked),
        ("NUMBER_OF_SETS", WriteMode::Uncooked),
        ("ORIGINATOR", WriteMode::Stringify),
        ("FILE_DESCRIPTOR", WriteMode::Stringify),
        ("CREATED", WriteMode::Stringify),
        ("DESCRIPTOR", WriteMode::Stringify),
        ("DIFFUSE_GEOMETRY", WriteMode::Stringify),
        ("MANUFACTURER", WriteMode::Stringify),
        ("MANUFACTURE", WriteMode::Stringify),
        ("PROD_DATE", WriteMode::Stringify),
        ("SERIAL", WriteMode::Stringify),
        ("MATERIAL", WriteMode::Stringify),
        ("INSTRUMENTATION", WriteMode::Stringify),
        ("MEASUREMENT_SOURCE", WriteMode::Stringify),
        ("PRINT_CONDITIONS", WriteMode::Stringify),
        ("SAMPLE_BACKING", WriteMode::Stringify),
        ("CHISQ_DOF", WriteMode::Stringify),
        ("MEASUREMENT_GEOMETRY", WriteMode::Stringify),
        ("FILTER", WriteMode::Stringify),
        ("POLARIZATION", WriteMode::Stringify),
        ("WEIGHTING_FUNCTION", WriteMode::Pair),
        ("COMPUTATIONAL_PARAMETER", WriteMode::Pair),
        ("TARGET_TYPE", WriteMode::Stringify),
        ("COLORANT", WriteMode::Stringify),
        ("TABLE_DESCRIPTOR", WriteMode::Stringify),
        ("TABLE_NAME", WriteMode::Stringify),
    ]
}

/// The predefined sample ids, in registration order.
pub open spec fn predefined_sample_id_list() -> Seq<&'static str> {
    seq![
        "SAMPLE_ID",
        "STRING",
        "CMYK_C",
        "CMYK_M",
        "CMYK_Y",
        "CMYK_K",
        "D_RED",
        "D_GREEN",
        "D_BLUE",
        "D_VIS",
        "D_MAJOR_FILTER",
        "RGB_R",
        "RGB_G",
        "RGB_B",
        "SPECTRAL_NM",
        "SPECTRAL_PCT",
        "SPECTRAL_DEC",
        "XYZ_X",
        "XYZ_Y",
        "XYZ_Z",
        "XYY_X",
        "XYY_Y",
        "XYY_CAPY",
        "LAB_L",
        "LAB_A",
        "LAB_B",
        "LAB_C",
        "LAB_H",
        "LAB_DE",
        "LAB_DE_94",
        "LAB_DE_CMC",
        "LAB_DE_2000",
        "MEAN_DE",
        "STDEV_X",
        "STDEV_Y",
        "STDEV_Z",
        "STDEV_L",
        "STDEV_A",
        "STDEV_B",
        "STDEV_DE",
        "CHI_SQD_PAR",
    ]
}

/// The predefined keywords, with how each is written.
fn predefined_properties() -> (v: Vec<(&'static str, WriteMode)>)
    ensures
        v@ == predefined_property_list(),
{
    let mut v: Vec<(&'static str, WriteMode)> = Vec::new();
    v.push(("NUMBER_OF_FIELDS", WriteMode::Uncooked));
    v.push(("NUMBER_OF_SETS", WriteMode::Uncooked));
    v.push(("ORIGINATOR", WriteMode::Stringify));
    v.push(("FILE_DESCRIPTOR", WriteMode::Stringify));
    v.push(("CREATED", WriteMode::Stringify));
    v.push(("DESCRIPTOR", WriteMode::Stringify));
    v.push(("DIFFUSE_GEOMETRY", WriteMode::Stringify));
    v.push(("MANUFACTURER", WriteMode::Stringify));
    v.push(("MANUFACTURE", WriteMode::Stringify));
    v.push(("PROD_DATE", WriteMode::Stringify));
    v.push(("SERIAL", WriteMode::Stringify));
    v.push(("MATERIAL", WriteMode::Stringify));
    v.push(("INSTRUMENTATION", WriteMode::Stringify));
    v.push(("MEASUREMENT_SOURCE", WriteMode::Stringify));
    v.push(("PRINT_CONDITIONS", WriteMode::Stringify));
    v.push(("SAMPLE_BACKING", WriteMode::Stringify));
    v.push(("CHISQ_DOF", WriteMode::Stringify));
    v.push(("MEASUREMENT_GEOMETRY", WriteMode::Stringify));
    v.push(("FILTER", WriteMode::Stringify));
    v.push(("POLARIZATION", WriteMode::Stringify));
    v.push(("WEIGHTING_FUNCTION", WriteMode::Pair));
    v.push(("COMPUTATIONAL_PARAMETER", WriteMode::Pair));
    v.push(("TARGET_TYPE", WriteMode::Stringify));
    v.push(("COLORANT", WriteMode::Stringify));
    v.push(("TABLE_DESCRIPTOR", WriteMode::Stringify));
    v.push(("TABLE_NAME", WriteMode::Stringify));
    v
}

/// The predefined sample ids.
fn predefined_sample_ids() -> (v: Vec<&'static str>)
    ensures
        v@ == predefined_sample_id_list(),
{
    let mut v: Vec<&'static str> = Vec::new();
    v.push("SAMPLE_ID");
    v.push("STRING");
    v.push("CMYK_C");
    v.push("CMYK_M");
    v.push("CMYK_Y");
    v.push("CMYK_K");
    v.push("D_RED");
    v.push("D_GREEN");
    v.push("D_BLUE");
    v.push("D_VIS");
    v.push("D_MAJOR_FILTER");
    v.push("RGB_R");
    v.push("RGB_G");
    v.push("RGB_B");
    v.push("SPECTRAL_NM");
    v.push("SPECTRAL_PCT");
    v.push("SPECTRAL_DEC");
    v.push("XYZ_X");
    v.push("XYZ_Y");
    v.push("XYZ_Z");
    v.push("XYY_X");
    v.push("XYY_Y");
    v.push("XYY_CAPY");
    v.push("LAB_L");
    v.push("LAB_A");
    v.push("LAB_B");
    v.push("LAB_C");
    v.push("LAB_H");
    v.push("LAB_DE");
    v.push("LAB_DE_94");
    v.push("LAB_DE_CMC");
    v.push("LAB_DE_2000");
    v.push("MEAN_DE");
    v.push("STDEV_X");
    v.push("STDEV_Y");
    v.push("STDEV_Z");
    v.push("STDEV_L");
    v.push("STDEV_A");
    v.push("STDEV_B");
    v.push("STDEV_DE");
    v.push("CHI_SQD_PAR");
    assert(v@ =~= predefined_sample_id_list());
    v
}

} // verus!

verus! {

/// The last character boundary of `b` at or before byte `n` (0 at worst).
pub open spec fn boundary_at_most(b: Seq<u8>, n: int) -> int
    decreases n,
{
    if n <= 0 {
        0
    } else if vstd::utf8::is_char_boundary(b, n) {
        n
    } else {
        boundary_at_most(b, n - 1)
    }
}

impl Profile {
    /// The value of a header property of the active table.
    pub fn get_property(&self, key: &str) -> (r: Option<&str>)
        requires
            self.wf(),
        ensures
            str_opt_view(r) == prop_value(self@.cur(), tb(key@)),
    {
        let t = self.table();
        proof {
            lemma_locate_range(t@.header, tb(key@), None);
        }
        match is_available_on_list(&t.header_list, key, None) {
            Some(i) => {
                assert(t@.header[i as int].value == opt_view(t.header_list@[i as int].value));
                match &t.header_list[i].value {
                    Some(v) => Some(v.as_str()),
                    None => None,
                }
            },
            None => None,
        }
    }

    /// The value of one subkey of a pair property.
    pub fn get_property_multi(&self, key: &str, subkey: &str) -> (r: Option<&str>)
        requires
            self.wf(),
        ensures
            str_opt_view(r) == prop_multi(self@.cur(), tb(key@), tb(subkey@)),
    {
        let t = self.table();
        proof {
            lemma_locate_range(t@.header, tb(key@), Some(tb(subkey@)));
        }
        match is_available_on_list(&t.header_list, key, Some(subkey)) {
            Some(i) => {
                assert(t@.header[i as int].value == opt_view(t.header_list@[i as int].value));
                match &t.header_list[i].value {
                    Some(v) => Some(v.as_str()),
                    None => None,
                }
            },
            None => None,
        }
    }

    /// Add or update a property of the active table.
    fn add_property(&mut self, key: &str, subkey: Option<&str>, value: &str, mode: WriteMode) -> (ok: bool)
        requires
            old(self).wf(),
        ensures
            final(self).wf(),
            ({
                let (b, h) = add_result(
                    old(self)@.cur().header,
                    key@,
                    str_opt_view(subkey),
                    Some(value@),
                    mode,
                );
                ok == b && final(self)@ == old(self)@.with_cur(
                    (TableView { header: h, ..old(self)@.cur() }),
                )
            }),
    {
        let i = self.n_table;
        let ghost old_t = self.tables@[i as int]@;
        let ok = add_to_list(&mut self.tables[i].header_list, key, subkey, Some(value), mode);
        assert(tables_view(self.tables@) == tables_view(old(self).tables@).update(
            i as int,
            self.tables@[i as int]@,
        ));
        proof {
            assert(table_wf(old(self)@.cur()));
            lemma_wf_with_cur(old(self)@, self.tables@[i as int]@);
        }
        ok
    }

    /// Set a quoted property; empty values are refused.
    pub fn set_property_str(&mut self, key: &str, val: &str) -> (ok: bool)
        requires
            old(self).wf(),
        ensures
            final(self).wf(),
            val@.len() == 0 ==> !ok && final(self)@ == old(self)@,
            val@.len() != 0 ==> ({
                let (b, h) = add_result(
                    old(self)@.cur().header,
                    key@,
                    None,
                    Some(val@),
                    WriteMode::Stringify,
                );
                ok == b && final(self)@ == old(self)@.with_cur(
                    (TableView { header: h, ..old(self)@.cur() }),
                )
            }),
    {
        if val.is_empty() {
            return false;
        }
        self.add_property(key, None, val, WriteMode::Stringify)
    }

    /// Set a property to the decimal text of `val`, written as hex.
    pub fn set_property_hex(&mut self, key: &str, val: u32) -> (ok: bool)
        requires
            old(self).wf(),
        ensures
            final(self).wf(),
            ({
                let (b, h) = add_result(
                    old(self)@.cur().header,
                    key@,
                    None,
                    Some(latin1(dec_digits(val as nat))),
                    WriteMode::Hexadecimal,
                );
                ok == b && final(self)@ == old(self)@.with_cur(
                    (TableView { header: h, ..old(self)@.cur() }),
                )
            }),
    {
        let digits = fmt_u64(val as u64);
        let text = latin1_string(digits.as_slice());
        self.add_property(key, None, text.as_str(), WriteMode::Hexadecimal)
    }

    /// Set a property written as a bare token.
    pub fn set_property_uncooked(&mut self, key: &str, buffer: &str) -> (ok: bool)
        requires
            old(self).wf(),
        ensures
            final(self).wf(),
            ({
                let (b, h) = add_result(
                    old(self)@.cur().header,
                    key@,
                    None,
                    Some(buffer@),
                    WriteMode::Uncooked,
                );
                ok == b && final(self)@ == old(self)@.with_cur(
                    (TableView { header: h, ..old(self)@.cur() }),
                )
            }),
    {
        self.add_property(key, None, buffer, WriteMode::Uncooked)
    }

    /// The header keywords of the active table, in
    /// order.
    pub fn enum_properties(&self) -> (r: Vec<&str>)
        requires
            self.wf(),
        ensures
            r@.len() == self@.cur().header.len(),
            forall|i: int| 0 <= i < r@.len() ==> #[trigger] r@[i]@ == self@.cur().header[i].keyword,
    {
        let t = self.table();
        let mut r: Vec<&str> = Vec::new();
        let mut i: usize = 0;
        while i < t.header_list.len()
            invariant
                i <= t.header_list.len(),
                t@ == self@.cur(),
                r@.len() == i,
                forall|j: int| 0 <= j < i ==> #[trigger] r@[j]@ == t@.header[j].keyword,
            decreases t.header_list.len() - i,
        {
            assert(t@.header[i as int].keyword == t.header_list@[i as int].keyword@);
            r.push(t.header_list[i].keyword.as_str());
            i += 1;
        }
        r
    }

    /// The number of tables.
    pub fn table_count(&self) -> (n: u32)
        requires
            self.wf(),
        ensures
            n == self@.tables.len(),
    {
        self.tables.len() as u32
    }

    /// Select table `n_table`; selecting one past the last
    /// appends an empty table first.
    pub fn set_table(&mut self, n_table: u32) -> (r: Result<u32, Error>)
        requires
            old(self).wf(),
        ensures
            final(self).wf(),
            n_table < old(self)@.tables.len() ==> r == Ok::<u32, Error>(n_table) && final(self)@
                == (ProfileView { n_table: n_table as int, ..old(self)@ }),
            n_table == old(self)@.tables.len() && n_table < MAXTABLES - 1 ==> r == Ok::<
                u32,
                Error,
            >(n_table) && final(self)@ == (ProfileView {
                tables: old(self)@.tables.push(empty_table(Seq::empty())),
                n_table: n_table as int,
                ..old(self)@
            }),
            (n_table > old(self)@.tables.len() || n_table >= MAXTABLES - 1) && !(n_table
                < old(self)@.tables.len()) ==> (r is Err) && final(self)@ == old(self)@,
    {
        let n = n_table as usize;
        if n >= self.tables.len() {
            if n == self.tables.len() {
                if !self.alloc_table() {
                    return Err(Error::Corrupt("too many tables"));
                }
            } else {
                return Err(Error::Corrupt("table out of sequence"));
            }
        }
        self.n_table = n;
        Ok(n_table)
    }

    /// The sheet type of the active table.
    pub fn sheet_type(&self) -> (r: &str)
        requires
            self.wf(),
        ensures
            r@ == self@.cur().sheet_type,
    {
        self.table().sheet_type.as_str()
    }

    /// Set the sheet type of the active table; at most 1023 bytes are kept,
    /// cut at the last character boundary that fits.
    pub fn set_sheet_type(&mut self, ty: &str)
        requires
            old(self).wf(),
        ensures
            final(self).wf(),
            final(self)@ == old(self)@.with_cur(
                (TableView { sheet_type: final(self)@.cur().sheet_type, ..old(self)@.cur() }),
            ),
            tb(final(self)@.cur().sheet_type) == (if tb(ty@).len() > MAXSTR - 1 {
                tb(ty@).subrange(0, boundary_at_most(tb(ty@), MAXSTR - 1))
            } else {
                tb(ty@)
            }),
    {
        let s: String = if ty.as_bytes().len() > MAXSTR - 1 {
            let mut k: usize = MAXSTR - 1;
            while k > 0 && !ty.is_char_boundary(k)
                invariant
                    k <= MAXSTR - 1,
                    boundary_at_most(tb(ty@), k as int) == boundary_at_most(tb(ty@), MAXSTR - 1),
                decreases k,
            {
                k -= 1;
            }
            if k == 0 {
                let e = String::new();
                assert(tb(e@) =~= tb(ty@).subrange(0, 0));
                e
            } else {
                let (a, _b) = ty.split_at(k);
                assert(tb(a@) == tb(ty@).subrange(0, k as int));
                a.to_owned()
            }
        } else {
            ty.to_owned()
        };
        let ghost sv = s@;
        assert(tb(sv) == (if tb(ty@).len() > MAXSTR - 1 {
            tb(ty@).subrange(0, boundary_at_most(tb(ty@), MAXSTR - 1))
        } else {
            tb(ty@)
        }));
        let i = self.n_table;
        self.tables[i].sheet_type = s;
        assert(self.tables@[i as int]@.sheet_type == sv);
        assert(tables_view(self.tables@) == tables_view(old(self).tables@).update(
            i as int,
            self.tables@[i as int]@,
        ));
        proof {
            assert(table_wf(old(self)@.cur()));
            lemma_wf_with_cur(old(self)@, self.tables@[i as int]@);
        }
    }

    /// Number of columns of the active table.
    pub fn num_samples(&self) -> (n: i32)
        requires
            self.wf(),
        ensures
            n == self@.cur().n_samples,
    {
        self.table().n_samples
    }
}

} // verus!

verus! {

impl Profile {
    /// Give the active table its label row (see [`alloc_format_spec`]).
    fn allocate_data_format(&mut self) -> (ok: bool)
        requires
            old(self).wf(),
        ensures
            final(self).wf(),
            match alloc_format_spec(old(self)@.cur()) {
                None => !ok && final(self)@ == old(self)@,
                Some(t1) => ok && final(self)@ == old(self)@.with_cur(t1),
            },
    {
        let i = self.n_table;
        proof {
            lemma_with_cur_same(old(self)@);
            assert(table_wf(old(self)@.cur()));
        }
        if self.tables[i].data_format.is_some() {
            return true;
        }
        let n = satoi(self.get_property("NUMBER_OF_FIELDS"));
        if n <= 0 || n > 0x7ffe {
            return false;
        }
        let cells = null_cells((n as usize) + 1);
        self.tables[i].n_samples = n;
        self.tables[i].data_format = Some(cells);
        assert(tables_view(self.tables@) == tables_view(old(self).tables@).update(
            i as int,
            self.tables@[i as int]@,
        ));
        proof {
            lemma_wf_with_cur(old(self)@, self.tables@[i as int]@);
        }
        true
    }

    /// Store the label of column `n`.
    fn set_data_format(&mut self, n: i32, label: &str) -> (ok: bool)
        requires
            old(self).wf(),
        ensures
            final(self).wf(),
            ({
                let (b, t) = set_format_spec(old(self)@.cur(), n as int, label@);
                ok == b && final(self)@ == old(self)@.with_cur(t)
            }),
    {
        if !self.allocate_data_format() {
            proof {
                lemma_with_cur_same(old(self)@);
            }
            return false;
        }
        let ghost mid = self@;
        let i = self.n_table;
        proof {
            assert(mid.cur() == self.tables@[i as int]@);
            assert(table_wf(mid.cur()));
        }
        if n < 0 || n >= self.tables[i].n_samples {
            return false;
        }
        let idx = n as usize;
        let lbl = label.to_owned();
        match &mut self.tables[i].data_format {
            Some(df) => {
                put_cell(df, idx, lbl);
            },
            None => {},
        }
        assert(tables_view(self.tables@) == mid.tables.update(i as int, self.tables@[i as int]@));
        proof {
            lemma_wf_with_cur(mid, self.tables@[i as int]@);
            lemma_with_cur_twice(old(self)@, mid.cur(), self.tables@[i as int]@);
        }
        true
    }

    /// The label of column `n` of the active table.
    fn get_data_format(&self, n: i32) -> (r: Option<&str>)
        requires
            self.wf(),
        ensures
            str_opt_view(r) == df_at(self@.cur(), n as int),
    {
        let t = self.table();
        match &t.data_format {
            None => None,
            Some(df) => {
                if n < 0 || n as usize >= df.len() {
                    return None;
                }
                match &df[n as usize] {
                    Some(s) => Some(s.as_str()),
                    None => None,
                }
            },
        }
    }

    /// Give the active table its cell matrix (see [`alloc_set_spec`]).
    fn allocate_data_set(&mut self) -> (ok: bool)
        requires
            old(self).wf(),
        ensures
            final(self).wf(),
            match alloc_set_spec(old(self)@.cur()) {
                None => !ok && final(self)@ == old(self)@,
                Some(t1) => ok && final(self)@ == old(self)@.with_cur(t1),
            },
    {
        let i = self.n_table;
        proof {
            lemma_with_cur_same(old(self)@);
            assert(table_wf(old(self)@.cur()));
        }
        if self.tables[i].data.is_some() {
            return true;
        }
        let ns = satoi(self.get_property("NUMBER_OF_FIELDS"));
        let np = satoi(self.get_property("NUMBER_OF_SETS"));
        if !(0 <= ns && ns <= 0x7ffe) || !(0 <= np && np <= 0x7ffe) {
            return false;
        }
        assert(0 <= np * ns <= 0x7ffe * 0x7ffe) by (nonlinear_arith)
            requires
                0 <= ns <= 0x7ffe,
                0 <= np <= 0x7ffe,
        ;
        if np * ns > 200000 {
            return false;
        }
        assert(0 <= (ns + 1) * (np + 1) <= 0x7fff * 0x7fff) by (nonlinear_arith)
            requires
                0 <= ns <= 0x7ffe,
                0 <= np <= 0x7ffe,
        ;
        let size = ((ns as usize) + 1) * ((np as usize) + 1);
        let cells = null_cells(size);
        self.tables[i].n_samples = ns;
        self.tables[i].n_patches = np;
        self.tables[i].data = Some(cells);
        assert(tables_view(self.tables@) == tables_view(old(self).tables@).update(
            i as int,
            self.tables@[i as int]@,
        ));
        proof {
            lemma_wf_with_cur(old(self)@, self.tables@[i as int]@);
        }
        true
    }

    /// The cell at row `n_set`, column `n_field` of the active table.
    fn get_data(&self, n_set: i32, n_field: i32) -> (r: Option<&str>)
        requires
            self.wf(),
        ensures
            str_opt_view(r) == cell_at(self@.cur(), n_set as int, n_field as int),
    {
        let t = self.table();
        let ns = t.n_samples;
        let np = t.n_patches;
        if n_set < 0 || n_set >= np || n_field < 0 || n_field >= ns {
            return None;
        }
        assert(0 <= n_set * ns <= 0x7ffe * 0x7ffe) by (nonlinear_arith)
            requires
                0 <= ns <= 0x7ffe,
                0 <= n_set <= 0x7ffe,
        ;
        match &t.data {
            None => None,
            Some(d) => {
                let idx = (n_set * ns + n_field) as usize;
                if idx < d.len() {
                    match &d[idx] {
                        Some(s) => Some(s.as_str()),
                        None => None,
                    }
                } else {
                    None
                }
            },
        }
    }

    /// Store a cell of the active table.
    fn set_data(&mut self, n_set: i32, n_field: i32, val: &str) -> (ok: bool)
        requires
            old(self).wf(),
        ensures
            final(self).wf(),
            ({
                let (b, t) = set_cell_spec(old(self)@.cur(), n_set as int, n_field as int, val@);
                ok == b && final(self)@ == old(self)@.with_cur(t)
            }),
    {
        if !self.allocate_data_set() {
            proof {
                lemma_with_cur_same(old(self)@);
            }
            return false;
        }
        let ghost mid = self@;
        let i = self.n_table;
        proof {
            assert(mid.cur() == self.tables@[i as int]@);
            assert(table_wf(mid.cur()));
        }
        let np = self.tables[i].n_patches;
        let ns = self.tables[i].n_samples;
        if n_set > np || n_set < 0 {
            return false;
        }
        if n_field > ns || n_field < 0 {
            return false;
        }
        assert(0 <= n_set * ns <= 0x7ffe * 0x7ffe) by (nonlinear_arith)
            requires
                0 <= ns <= 0x7ffe,
                0 <= n_set <= 0x7ffe,
        ;
        let idx = (n_set * ns + n_field) as usize;
        let v = val.to_owned();
        match &mut self.tables[i].data {
            Some(d) => {
                put_cell(d, idx, v);
            },
            None => {},
        }
        assert(tables_view(self.tables@) == mid.tables.update(i as int, self.tables@[i as int]@));
        proof {
            lemma_wf_with_cur(mid, self.tables@[i as int]@);
            lemma_with_cur_twice(old(self)@, mid.cur(), self.tables@[i as int]@);
        }
        true
    }

    /// The first column labelled `sample`, or -1.
    fn locate_sample(&self, sample: &str) -> (r: i32)
        requires
            self.wf(),
        ensures
            r as int == sample_from(self@.cur(), tb(sample@), 0),
    {
        let t = self.table();
        let mut i: i32 = 0;
        while i < t.n_samples
            invariant
                0 <= i <= t.n_samples,
                self.wf(),
                t@ == self@.cur(),
                table_wf(t@),
                sample_from(t@, tb(sample@), 0) == sample_from(t@, tb(sample@), i as int),
            decreases t.n_samples - i,
        {
            match self.get_data_format(i) {
                Some(fld) => {
                    if str_ci_eq(fld, sample) {
                        return i;
                    }
                },
                None => {},
            }
            i += 1;
        }
        -1
    }

    /// The first row whose `SAMPLE_ID` cell is `patch`, or -1.
    fn locate_patch(&self, patch: &str) -> (r: i32)
        requires
            self.wf(),
        ensures
            r as int == patch_from(self@.cur(), tb(patch@), 0),
    {
        let t = self.table();
        let mut i: i32 = 0;
        while i < t.n_patches
            invariant
                0 <= i <= t.n_patches,
                self.wf(),
                t@ == self@.cur(),
                table_wf(t@),
                patch_from(t@, tb(patch@), 0) == patch_from(t@, tb(patch@), i as int),
            decreases t.n_patches - i,
        {
            match self.get_data(i, t.sample_id) {
                Some(data) => {
                    if str_ci_eq(data, patch) {
                        return i;
                    }
                },
                None => {},
            }
            i += 1;
        }
        -1
    }

    /// The `DATA_FORMAT` label of column `col`, if any.
    pub fn data_format(&self, col: i32) -> (r: Option<&str>)
        requires
            self.wf(),
        ensures
            str_opt_view(r) == df_at(self@.cur(), col as int),
    {
        self.get_data_format(col)
    }

    /// The column labelled `sample`, or -1.
    pub fn find_data_format(&self, sample: &str) -> (r: i32)
        requires
            self.wf(),
        ensures
            r as int == sample_from(self@.cur(), tb(sample@), 0),
    {
        self.locate_sample(sample)
    }

    /// The cell at row `row`, column `col`.
    pub fn get_data_rowcol(&self, row: i32, col: i32) -> (r: Option<&str>)
        requires
            self.wf(),
        ensures
            str_opt_view(r) == cell_at(self@.cur(), row as int, col as int),
    {
        self.get_data(row, col)
    }

    /// The cell of the row named `patch` in the column
    /// labelled `sample`.
    pub fn get_data_by_name(&self, patch: &str, sample: &str) -> (r: Option<&str>)
        requires
            self.wf(),
        ensures
            str_opt_view(r) == ({
                let f = sample_from(self@.cur(), tb(sample@), 0);
                let s = patch_from(self@.cur(), tb(patch@), 0);
                if f < 0 || s < 0 {
                    None
                } else {
                    cell_at(self@.cur(), s, f)
                }
            }),
    {
        let i_field = self.locate_sample(sample);
        if i_field < 0 {
            return None;
        }
        let i_set = self.locate_patch(patch);
        if i_set < 0 {
            return None;
        }
        self.get_data(i_set, i_field)
    }

    /// The `SAMPLE_ID` cell of row `n_patch`.
    pub fn patch_name(&self, n_patch: i32) -> (r: Option<&str>)
        requires
            self.wf(),
        ensures
            str_opt_view(r) == cell_at(self@.cur(), n_patch as int, self@.cur().sample_id),
    {
        let sid = self.table().sample_id;
        self.get_data(n_patch, sid)
    }

    /// The row named `patch`, or -1.
    pub fn patch_by_name(&self, patch: &str) -> (r: i32)
        requires
            self.wf(),
        ensures
            r as int == patch_from(self@.cur(), tb(patch@), 0),
    {
        self.locate_patch(patch)
    }

    /// Set the cell at row `row`, column `col`.
    pub fn set_data_rowcol(&mut self, row: i32, col: i32, val: &str) -> (ok: bool)
        requires
            old(self).wf(),
        ensures
            final(self).wf(),
            ({
                let (b, t) = set_cell_spec(old(self)@.cur(), row as int, col as int, val@);
                ok == b && final(self)@ == old(self)@.with_cur(t)
            }),
    {
        self.set_data(row, col, val)
    }
}

} // verus!
