//! The CGATS text writer: every table's header, `DATA_FORMAT` block and data
//! block, in order, followed by a NUL byte.

use vstd::prelude::*;
use crate::cgats::{
    add_result, add_to_list, fields_prop, is_available_on_list, locate, lemma_locate_range, opt_bytes, prop_value,
    satoi, satob, satob_spec, satoi_spec, sets_prop, starts_hash, str_opt_view, tables_view,
    table_wf, KeyValue, KvView, Profile, ProfileView, Table, TableView, WriteMode, opt_view,
    strs_view, opt_strs_view, kvs_view,
};
use crate::text::{fmt_hex_upper, hex_digits, push_all, string_push, tb};
use vstd::string::StrSliceExecFns;

verus! {

// ------------------------------------------------------- number text

/// `s` without the copies of `c` at its end.
pub open spec fn trim_end(s: Seq<char>, c: char) -> Seq<char>
    decreases s.len(),
{
    if s.len() > 0 && s.last() == c {
        trim_end(s.drop_last(), c)
    } else {
        s
    }
}

/// A fixed-point number text without trailing fractional zeros (and
/// without the point when nothing follows it); text without a point is
/// kept as it is.
pub open spec fn stripped_zeros(s: Seq<char>) -> Seq<char> {
    if s.contains('.') {
        trim_end(trim_end(s, '0'), '.')
    } else {
        s
    }
}

fn trim_end_len(s: &str, n: usize, c: char) -> (e: usize)
    requires
        n <= s@.len(),
    ensures
        e <= n,
        s@.subrange(0, e as int) == trim_end(s@.subrange(0, n as int), c),
{
    let mut e = n;
    while e > 0 && s.get_char(e - 1) == c
        invariant
            e <= n <= s@.len(),
            trim_end(s@.subrange(0, e as int), c) == trim_end(s@.subrange(0, n as int), c),
        decreases e,
    {
        assert(s@.subrange(0, e as int).drop_last() =~= s@.subrange(0, e - 1));
        e -= 1;
    }
    e
}

pub fn strip_trailing_zeros(s: &str) -> (r: String)
    ensures
        r@ == stripped_zeros(s@),
{
    let n = s.unicode_len();
    let mut has_point = false;
    let mut i: usize = 0;
    while i < n
        invariant
            i <= n,
            n == s@.len(),
            has_point == s@.subrange(0, i as int).contains('.'),
        decreases n - i,
    {
        if s.get_char(i) == '.' {
            has_point = true;
        }
        proof {
            let a = s@.subrange(0, i as int);
            let b = s@.subrange(0, i + 1);
            assert(b == a.push(s@[i as int]));
            if s@[i as int] == '.' {
                assert(b[i as int] == '.');
            }
            if a.contains('.') {
                let k = choose|k: int| 0 <= k < a.len() && a[k] == '.';
                assert(b[k] == '.');
            }
            if b.contains('.') && s@[i as int] != '.' {
                let k = choose|k: int| 0 <= k < b.len() && b[k] == '.';
                assert(a[k] == '.');
            }
        }
        i += 1;
    }
    assert(s@.subrange(0, n as int) =~= s@);
    if !has_point {
        return s.to_owned();
    }
    let e1 = trim_end_len(s, n, '0');
    let e2 = trim_end_len(s, e1, '.');
    let mut out = String::new();
    let mut k: usize = 0;
    while k < e2
        invariant
            k <= e2 <= s@.len(),
            out@ == s@.subrange(0, k as int),
        decreases e2 - k,
    {
        string_push(&mut out, s.get_char(k));
        k += 1;
        assert(out@ =~= s@.subrange(0, k as int));
    }
    out
}

// ------------------------------------------------------------ the text

/// A comment value, with `# ` after every line break.
pub open spec fn comment_text(b: Seq<u8>) -> Seq<u8>
    decreases b.len(),
{
    if b.len() == 0 {
        Seq::empty()
    } else {
        comment_text(b.drop_last()) + if b.last() == 10u8 {
            seq![10u8, 35u8, 32u8]
        } else {
            seq![b.last()]
        }
    }
}

/// A property value as its write mode renders it, tab first.
pub open spec fn value_text(kv: KvView, v: Seq<char>) -> Seq<u8> {
    match kv.write_as {
        WriteMode::Uncooked => seq![9u8] + tb(v),
        WriteMode::Stringify => seq![9u8, 34u8] + tb(v) + seq![34u8],
        WriteMode::Hexadecimal => seq![9u8, 48u8, 120u8] + hex_digits(
            ((satoi_spec(Some(tb(v))) as i32) as u32) as nat,
        ),
        WriteMode::Binary => seq![9u8, 48u8, 98u8] + satob_spec(Some(tb(v))),
        WriteMode::Pair => seq![9u8, 34u8] + match kv.subkey {
            Some(s) => tb(s),
            None => Seq::empty(),
        } + seq![44u8] + tb(v) + seq![34u8],
    }
}

/// One header entry: a comment block for `#` keys, else `KEY<tab>value`.
pub open spec fn kv_text(kv: KvView) -> Seq<u8> {
    if starts_hash(tb(kv.keyword)) {
        seq![35u8, 10u8, 35u8, 32u8] + match kv.value {
            Some(v) => comment_text(tb(v)),
            None => Seq::empty(),
        } + seq![10u8, 35u8, 10u8]
    } else {
        tb(kv.keyword) + match kv.value {
            Some(v) => value_text(kv, v),
            None => Seq::empty(),
        } + seq![10u8]
    }
}

/// The first `n` header entries.
pub open spec fn header_lines(h: Seq<KvView>, n: int) -> Seq<u8>
    decreases n,
{
    if n <= 0 {
        Seq::empty()
    } else {
        header_lines(h, n - 1) + kv_text(h[n - 1])
    }
}

/// Sheet type line, then the header entries.
pub open spec fn header_text(t: TableView) -> Seq<u8> {
    tb(t.sheet_type) + seq![10u8] + header_lines(t.header, t.header.len() as int)
}

/// A newline after the last item of a row, a tab after the others.
pub open spec fn sep(last: bool) -> Seq<u8> {
    if last {
        seq![10u8]
    } else {
        seq![9u8]
    }
}

/// A column label, or a blank where none is set.
pub open spec fn label_text(df: Seq<Option<Seq<char>>>, i: int) -> Seq<u8> {
    if 0 <= i < df.len() && df[i] is Some {
        tb(df[i].unwrap())
    } else {
        seq![32u8]
    }
}

/// The first `k` labels of a row of `n`.
pub open spec fn label_row(df: Seq<Option<Seq<char>>>, n: int, k: int) -> Seq<u8>
    decreases k,
{
    if k <= 0 {
        Seq::empty()
    } else {
        label_row(df, n, k - 1) + label_text(df, k - 1) + sep(k - 1 == n - 1)
    }
}

/// The `DATA_FORMAT` block; the labels only when `NUMBER_OF_FIELDS` does not
/// exceed the allocated columns.
pub open spec fn format_text(t: TableView) -> Seq<u8> {
    match t.data_format {
        None => Seq::empty(),
        Some(df) => {
            let n = fields_prop(t);
            tb("BEGIN_DATA_FORMAT\n"@) + seq![32u8] + (if n <= t.n_samples {
                label_row(df, n, n)
            } else {
                Seq::empty()
            }) + tb("END_DATA_FORMAT\n"@)
        },
    }
}

/// A cell: quoted when it holds a blank, `""` when unset.
pub open spec fn cell_text(d: Seq<Option<Seq<char>>>, idx: int) -> Seq<u8> {
    if 0 <= idx < d.len() && d[idx] is Some {
        let b = tb(d[idx].unwrap());
        if b.contains(32u8) {
            seq![34u8] + b + seq![34u8]
        } else {
            b
        }
    } else {
        seq![34u8, 34u8]
    }
}

/// The first `k` cells of row `i`.
pub open spec fn row_cells(d: Seq<Option<Seq<char>>>, ns: int, i: int, k: int) -> Seq<u8>
    decreases k,
{
    if k <= 0 {
        Seq::empty()
    } else {
        row_cells(d, ns, i, k - 1) + cell_text(d, i * ns + k - 1) + sep(k - 1 == ns - 1)
    }
}

/// The first `k` rows, each led by a blank.
pub open spec fn rows_text(d: Seq<Option<Seq<char>>>, ns: int, k: int) -> Seq<u8>
    decreases k,
{
    if k <= 0 {
        Seq::empty()
    } else {
        rows_text(d, ns, k - 1) + seq![32u8] + row_cells(d, ns, k - 1, ns)
    }
}

/// The data block; the rows only when `NUMBER_OF_SETS` does not exceed the
/// allocated rows.
pub open spec fn data_text(t: TableView) -> Seq<u8> {
    match t.data {
        None => Seq::empty(),
        Some(d) => {
            let n = sets_prop(t);
            tb("BEGIN_DATA\n"@) + (if n <= t.n_patches {
                rows_text(d, t.n_samples, n)
            } else {
                Seq::empty()
            }) + tb("END_DATA\n"@)
        },
    }
}

pub open spec fn table_text(t: TableView) -> Seq<u8> {
    header_text(t) + format_text(t) + data_text(t)
}

/// The first `n` tables.
pub open spec fn tables_text(ts: Seq<TableView>, n: int) -> Seq<u8>
    decreases n,
{
    if n <= 0 {
        Seq::empty()
    } else {
        tables_text(ts, n - 1) + table_text(ts[n - 1])
    }
}

/// The whole stream as `save_to_mem` writes it.
pub open spec fn serialize(p: ProfileView) -> Seq<u8> {
    tables_text(p.tables, p.tables.len() as int).push(0u8)
}

// ------------------------------------------------------------ the writer

/// The value of a header property of one table.
pub(crate) fn table_prop<'a>(t: &'a Table, key: &str) -> (r: Option<&'a str>)
    ensures
        str_opt_view(r) == prop_value(t@, tb(key@)),
{
    proof {
        lemma_locate_range(t@.header, tb(key@), None);
    }
    match is_available_on_list(&t.header_list, key, None) {
        Some(i) => {
            assert(t@.header[i as int].value == opt_view(t.header_list@[i as int].value));
            match &t.header_list[i].value {
                Some(v) => Some(v.as_str()),
                None => None,
            }
        },
        None => None,
    }
}

fn write_comment(out: &mut Vec<u8>, v: &str)
    ensures
        final(out)@ == old(out)@ + comment_text(tb(v@)),
{
    let b = v.as_bytes();
    let mut i: usize = 0;
    while i < b.len()
        invariant
            i <= b.len(),
            b@ == tb(v@),
            out@ == old(out)@ + comment_text(b@.subrange(0, i as int)),
        decreases b.len() - i,
    {
        let c = b[i];
        assert(b@.subrange(0, i + 1).drop_last() == b@.subrange(0, i as int));
        out.push(c);
        if c == 10u8 {
            out.push(35u8);
            out.push(32u8);
        }
        i += 1;
    }
    assert(b@.subrange(0, b.len() as int) == b@);
}

fn write_value(out: &mut Vec<u8>, kv: &KeyValue, v: &str)
    ensures
        final(out)@ == old(out)@ + value_text(kv@, v@),
{
    match kv.write_as {
        WriteMode::Uncooked => {
            out.push(9u8);
            push_all(out, v.as_bytes());
        },
        WriteMode::Stringify => {
            out.push(9u8);
            out.push(34u8);
            push_all(out, v.as_bytes());
            out.push(34u8);
        },
        WriteMode::Hexadecimal => {
            out.push(9u8);
            out.push(48u8);
            out.push(120u8);
            let x = satoi(Some(v));
            let h = fmt_hex_upper(x as u32);
            push_all(out, h.as_slice());
        },
        WriteMode::Binary => {
            out.push(9u8);
            out.push(48u8);
            out.push(98u8);
            let bits = satob(Some(v));
            push_all(out, bits.as_slice());
        },
        WriteMode::Pair => {
            out.push(9u8);
            out.push(34u8);
            match &kv.subkey {
                Some(s) => push_all(out, s.as_str().as_bytes()),
                None => {},
            }
            out.push(44u8);
            push_all(out, v.as_bytes());
            out.push(34u8);
        },
    }
    assert(out@ =~= old(out)@ + value_text(kv@, v@));
}

/// The registered keywords after property `kv` is written: an unknown
/// keyword (not a comment) is registered, to be written as it is.
pub open spec fn note_keyword(kw: Seq<KvView>, kv: KvView) -> Seq<KvView> {
    if !starts_hash(tb(kv.keyword)) && locate(kw, tb(kv.keyword), None) is None {
        add_result(kw, kv.keyword, None, None, WriteMode::Uncooked).1
    } else {
        kw
    }
}

/// The registered keywords after the first `n` properties of header `h`
/// are written.
pub open spec fn note_header(kw: Seq<KvView>, h: Seq<KvView>, n: int) -> Seq<KvView>
    decreases n,
{
    if n <= 0 {
        kw
    } else {
        note_keyword(note_header(kw, h, n - 1), h[n - 1])
    }
}

/// The registered keywords after the headers of the first `n` tables are
/// written.
pub open spec fn note_tables(kw: Seq<KvView>, tv: Seq<TableView>, n: int) -> Seq<KvView>
    decreases n,
{
    if n <= 0 {
        kw
    } else {
        note_header(note_tables(kw, tv, n - 1), tv[n - 1].header, tv[n - 1].header.len() as int)
    }
}

fn write_kv(out: &mut Vec<u8>, kv: &KeyValue, valid_keywords: &mut Vec<KeyValue>)
    ensures
        final(out)@ == old(out)@ + kv_text(kv@),
        kvs_view(final(valid_keywords)@) == note_keyword(kvs_view(old(valid_keywords)@), kv@),
{
    let kb = kv.keyword.as_str().as_bytes();
    if kb.len() > 0 && kb[0] == 35u8 {
        out.push(35u8);
        out.push(10u8);
        out.push(35u8);
        out.push(32u8);
        match &kv.value {
            Some(v) => write_comment(out, v.as_str()),
            None => {},
        }
        out.push(10u8);
        out.push(35u8);
        out.push(10u8);
        assert(out@ =~= old(out)@ + kv_text(kv@));
        return;
    }
    // An unknown keyword is registered, as a non-strict stream allows.
    if is_available_on_list(valid_keywords, kv.keyword.as_str(), None).is_none() {
        add_to_list(valid_keywords, kv.keyword.as_str(), None, None, WriteMode::Uncooked);
    }
    push_all(out, kb);
    match &kv.value {
        Some(v) => write_value(out, kv, v.as_str()),
        None => {},
    }
    out.push(10u8);
    assert(out@ =~= old(out)@ + kv_text(kv@));
}

fn write_header(out: &mut Vec<u8>, t: &Table, valid_keywords: &mut Vec<KeyValue>)
    ensures
        final(out)@ == old(out)@ + header_text(t@),
        kvs_view(final(valid_keywords)@) == note_header(
            kvs_view(old(valid_keywords)@),
            t@.header,
            t@.header.len() as int,
        ),
{
    push_all(out, t.sheet_type.as_str().as_bytes());
    out.push(10u8);
    let ghost h = t@.header;
    let mut i: usize = 0;
    while i < t.header_list.len()
        invariant
            i <= t.header_list.len(),
            h == kvs_view(t.header_list@),
            out@ == old(out)@ + tb(t.sheet_type@) + seq![10u8] + header_lines(h, i as int),
            kvs_view(valid_keywords@) == note_header(kvs_view(old(valid_keywords)@), h, i as int),
        decreases t.header_list.len() - i,
    {
        write_kv(out, &t.header_list[i], valid_keywords);
        i += 1;
        assert(out@ =~= old(out)@ + tb(t.sheet_type@) + seq![10u8] + header_lines(h, i as int));
    }
    assert(out@ =~= old(out)@ + header_text(t@));
}

fn write_data_format(out: &mut Vec<u8>, t: &Table)
    requires
        table_wf(t@),
    ensures
        final(out)@ == old(out)@ + format_text(t@),
{
    let df = match &t.data_format {
        None => {
            assert(out@ =~= old(out)@ + format_text(t@));
            return;
        },
        Some(df) => df,
    };
    let ghost dv = strs_view(df@);
    push_all(out, "BEGIN_DATA_FORMAT\n".as_bytes());
    out.push(32u8);
    let ghost mid = out@;
    let n = satoi(table_prop(t, "NUMBER_OF_FIELDS"));
    if n <= t.n_samples {
        let mut i: i32 = 0;
        while i < n
            invariant
                0 <= i,
                i <= n || i == 0,
                dv == strs_view(df@),
                out@ == mid + label_row(dv, n as int, i as int),
            decreases n - i,
        {
            let ghost pre = out@;
            let ui = i as usize;
            if ui < df.len() {
                match &df[ui] {
                    Some(s) => push_all(out, s.as_str().as_bytes()),
                    None => out.push(32u8),
                }
            } else {
                out.push(32u8);
            }
            assert(out@ == pre + label_text(dv, i as int));
            if i == n - 1 {
                out.push(10u8);
            } else {
                out.push(9u8);
            }
            i += 1;
            assert(out@ =~= mid + label_row(dv, n as int, i as int));
        }
        if n <= 0 {
            assert(label_row(dv, n as int, n as int) == label_row(dv, n as int, i as int));
        }
        assert(out@ == mid + label_row(dv, n as int, n as int));
    } else {
        assert(out@ =~= mid + Seq::<u8>::empty());
    }
    push_all(out, "END_DATA_FORMAT\n".as_bytes());
    assert(out@ =~= old(out)@ + format_text(t@));
}

fn write_row(out: &mut Vec<u8>, d: &Vec<Option<String>>, ns: i32, row: i32)
    requires
        0 <= ns <= 0x7ffe,
        0 <= row <= 0x7ffe,
    ensures
        final(out)@ == old(out)@ + row_cells(strs_view(d@), ns as int, row as int, ns as int),
{
    let ghost dv = strs_view(d@);
    let mut j: i32 = 0;
    while j < ns
        invariant
            0 <= j <= ns,
            0 <= ns <= 0x7ffe,
            0 <= row <= 0x7ffe,
            dv == strs_view(d@),
            out@ == old(out)@ + row_cells(dv, ns as int, row as int, j as int),
        decreases ns - j,
    {
        let ghost pre = out@;
        assert(0 <= row * ns <= 0x7ffe * 0x7ffe) by (nonlinear_arith)
            requires
                0 <= ns <= 0x7ffe,
                0 <= row <= 0x7ffe,
        ;
        let idx = (row * ns + j) as usize;
        if idx < d.len() {
            match &d[idx] {
                Some(s) => {
                    let b = s.as_str().as_bytes();
                    if contains_blank(b) {
                        out.push(34u8);
                        push_all(out, b);
                        out.push(34u8);
                    } else {
                        push_all(out, b);
                    }
                },
                None => {
                    out.push(34u8);
                    out.push(34u8);
                },
            }
        } else {
            out.push(34u8);
            out.push(34u8);
        }
        assert(out@ =~= pre + cell_text(dv, row * ns + j));
        if j == ns - 1 {
            out.push(10u8);
        } else {
            out.push(9u8);
        }
        j += 1;
        assert(out@ =~= old(out)@ + row_cells(dv, ns as int, row as int, j as int));
    }
}

fn contains_blank(b: &[u8]) -> (r: bool)
    ensures
        r == b@.contains(32u8),
{
    let mut i: usize = 0;
    while i < b.len()
        invariant
            i <= b.len(),
            forall|k: int| 0 <= k < i ==> b@[k] != 32u8,
        decreases b.len() - i,
    {
        if b[i] == 32u8 {
            assert(b@[i as int] == 32u8);
            return true;
        }
        i += 1;
    }
    false
}

fn write_data(out: &mut Vec<u8>, t: &Table)
    requires
        table_wf(t@),
    ensures
        final(out)@ == old(out)@ + data_text(t@),
{
    let d = match &t.data {
        None => {
            assert(out@ =~= old(out)@ + data_text(t@));
            return;
        },
        Some(d) => d,
    };
    let ghost dv = strs_view(d@);
    push_all(out, "BEGIN_DATA\n".as_bytes());
    let ghost mid = out@;
    let n = satoi(table_prop(t, "NUMBER_OF_SETS"));
    let ns = t.n_samples;
    if n <= t.n_patches {
        let mut i: i32 = 0;
        while i < n
            invariant
                0 <= i,
                i <= n || i == 0,
                n <= 0x7ffe,
                0 <= ns <= 0x7ffe,
                dv == strs_view(d@),
                out@ == mid + rows_text(dv, ns as int, i as int),
            decreases n - i,
        {
            out.push(32u8);
            write_row(out, d, ns, i);
            i += 1;
            assert(out@ =~= mid + rows_text(dv, ns as int, i as int));
        }
        if n <= 0 {
            assert(rows_text(dv, ns as int, n as int) == rows_text(dv, ns as int, i as int));
        }
        assert(out@ == mid + rows_text(dv, ns as int, n as int));
    } else {
        assert(out@ =~= mid + Seq::<u8>::empty());
    }
    push_all(out, "END_DATA\n".as_bytes());
    assert(out@ =~= old(out)@ + data_text(t@));
}

impl Profile {
    /// The stream text: every table, then a NUL byte. Keywords the
    /// headers use that are not yet known are registered on the way (see
    /// [`note_tables`]), which leaves the tables themselves unchanged.
    pub fn save_to_mem(&mut self) -> (r: Vec<u8>)
        requires
            old(self).wf(),
        ensures
            final(self).wf(),
            final(self)@.tables == old(self)@.tables,
            final(self)@.n_table == old(self)@.n_table,
            final(self)@.sample_ids == old(self)@.sample_ids,
            final(self)@.keywords == note_tables(
                old(self)@.keywords,
                old(self)@.tables,
                old(self)@.tables.len() as int,
            ),
            r@ == serialize(old(self)@),
    {
        let mut out: Vec<u8> = Vec::new();
        let ghost tv = self@.tables;
        let mut i: usize = 0;
        while i < self.tables.len()
            invariant
                i <= self.tables.len(),
                self@.tables == old(self)@.tables,
                self@.n_table == old(self)@.n_table,
                self@.sample_ids == old(self)@.sample_ids,
                self.wf(),
                tv == self@.tables,
                out@ == tables_text(tv, i as int),
                self@.keywords == note_tables(old(self)@.keywords, tv, i as int),
            decreases self.tables.len() - i,
        {
            assert(table_wf(tv[i as int]));
            assert(tv[i as int] == self.tables@[i as int]@);
            let t = &self.tables[i];
            write_header(&mut out, t, &mut self.valid_keywords);
            write_data_format(&mut out, t);
            write_data(&mut out, t);
            i += 1;
            assert(out@ =~= tables_text(tv, i as int));
        }
        out.push(0u8);
        out
    }
}

} // verus!
