use vstd::prelude::*;
use vstd::string::{StrSliceExecFns, StringExecFns};
use crate::text::{dec_str, u64_to_string};
use crate::tree::{views_of, NodeV, TreeNode};

verus! {

/// One row of the CSV export: the `/`-joined path from the root to a
/// node, whether it is a directory, and its size if one was captured.
pub struct CsvRow {
    pub path: String,
    pub is_dir: bool,
    pub size: Option<u64>,
}

/// The mathematical value of a `CsvRow`.
#[verifier::ext_equal]
pub struct RowV {
    pub path: Seq<char>,
    pub is_dir: bool,
    pub size: Option<u64>,
}

impl View for CsvRow {
    type V = RowV;

    open spec fn view(&self) -> RowV {
        RowV { path: self.path@, is_dir: self.is_dir, size: self.size }
    }
}

pub open spec fn row_views(s: Seq<CsvRow>) -> Seq<RowV> {
    s.map_values(|r: CsvRow| r@)
}

/// A node's path below `cur`: the segments joined by `/`, with no leading
/// separator at the root.
pub open spec fn joined_path(cur: Seq<char>, name: Seq<char>) -> Seq<char> {
    if cur.len() == 0 {
        name
    } else {
        cur + seq!['/'] + name
    }
}

/// The rows for one node and everything below it, in pre-order.
pub open spec fn rows_of(t: NodeV, cur: Seq<char>) -> Seq<RowV>
    decreases t, 0nat,
{
    let path = joined_path(cur, t.name);
    seq![RowV { path: path, is_dir: t.is_dir, size: t.size }] + rows_from(t.children, path, 0)
}

pub open spec fn rows_from(cs: Seq<NodeV>, cur: Seq<char>, i: int) -> Seq<RowV>
    decreases cs, (if 0 <= i <= cs.len() { cs.len() - i } else { 0 }),
{
    if i < 0 || i >= cs.len() {
        Seq::empty()
    } else {
        rows_of(cs[i], cur) + rows_from(cs, cur, i + 1)
    }
}

proof fn lemma_row_views_push(s: Seq<CsvRow>, x: CsvRow)
    ensures
        row_views(s.push(x)) =~= row_views(s).push(x@),
{
    assert forall|i: int| 0 <= i < s.len() + 1 implies row_views(s.push(x))[i] == row_views(
        s,
    ).push(x@)[i] by {
        if i < s.len() {
            assert(s.push(x)[i] == s[i]);
        } else {
            assert(s.push(x)[i] == x);
        }
    }
}

fn collect_into(node: &TreeNode, cur: &str, out: &mut Vec<CsvRow>)
    ensures
        row_views(final(out)@) == row_views(old(out)@) + rows_of(node@, cur@),
    decreases *node,
{
    let ghost base = row_views(out@);
    let path: String = if cur.unicode_len() == 0 {
        node.name.clone()
    } else {
        let mut p = String::from_str(cur);
        p.append("/");
        p.append(node.name.as_str());
        p
    };
    proof {
        reveal_strlit("/");
        assert("/"@ =~= seq!['/']);
        assert(path@ =~= joined_path(cur@, node@.name));
    }
    let row = CsvRow { path: path.clone(), is_dir: node.is_dir, size: node.size };
    let ghost prevec = out@;
    out.push(row);
    proof {
        lemma_row_views_push(prevec, row);
    }
    collect_list_into(&node.children, path.as_str(), out);
    proof {
        assert(row_views(out@) =~= base + rows_of(node@, cur@));
    }
}

fn collect_list_into(children: &Vec<TreeNode>, cur: &str, out: &mut Vec<CsvRow>)
    ensures
        row_views(final(out)@) == row_views(old(out)@) + rows_from(views_of(children@), cur@, 0),
    decreases children,
{
    let ghost base = row_views(out@);
    let ghost csv = views_of(children@);
    let n = children.len();
    proof {
        crate::tree::lemma_views_of_len(children@);
    }
    let mut i: usize = 0;
    while i < n
        invariant
            i <= n,
            n == children@.len(),
            csv == views_of(children@),
            csv.len() == n,
            row_views(out@) + rows_from(csv, cur@, i as int) =~= base + rows_from(csv, cur@, 0),
        decreases n - i,
    {
        let c = &children[i];
        proof {
            crate::tree::lemma_views_of_index(children@, i as int);
            assert(c@ == csv[i as int]);
            assert(decreases_to!(*children => children@));
            assert(decreases_to!(children@ => children@[i as int]));
            assert(decreases_to!(*children => *c));
        }
        let ghost preout = row_views(out@);
        collect_into(c, cur, out);
        proof {
            assert(rows_from(csv, cur@, i as int) == rows_of(csv[i as int], cur@) + rows_from(
                csv,
                cur@,
                i + 1,
            ));
            assert(row_views(out@) + rows_from(csv, cur@, i + 1) =~= base + rows_from(
                csv,
                cur@,
                0,
            )) by {
                assert(row_views(out@) =~= preout + rows_of(csv[i as int], cur@));
            }
        }
        i = i + 1;
    }
    proof {
        assert(rows_from(csv, cur@, n as int) =~= Seq::<RowV>::empty());
        assert(row_views(out@) =~= base + rows_from(csv, cur@, 0));
    }
}

/// Walks the tree in pre-order and yields one row per node, each with its
/// `/`-joined path down from `current_path`.
pub fn collect_entries(node: &TreeNode, current_path: &str) -> (r: Vec<CsvRow>)
    ensures
        row_views(r@) == rows_of(node@, current_path@),
{
    let mut out: Vec<CsvRow> = Vec::new();
    collect_into(node, current_path, &mut out);
    proof {
        assert(row_views(out@) =~= rows_of(node@, current_path@));
    }
    out
}

/// One encoded CSV record; the meaning is fixed by the csv crate's
/// default dialect and nothing more is assumed of it.
pub uninterp spec fn csv_line_of(fields: Seq<Seq<char>>) -> Seq<char>;

/// A field that needs no quoting: free of comma, quote and line breaks.
pub open spec fn csv_plain_field(f: Seq<char>) -> bool {
    forall|i: int| 0 <= i < f.len() ==> f[i] != ',' && f[i] != '"' && f[i] != '\n' && f[i] != '\r'
}

/// Fields joined by commas, as an unquoted record reads.
pub open spec fn join_commas(fields: Seq<Seq<char>>) -> Seq<char>
    decreases fields.len(),
{
    if fields.len() == 0 {
        Seq::empty()
    } else if fields.len() == 1 {
        fields[0]
    } else {
        join_commas(fields.drop_last()) + seq![','] + fields.last()
    }
}

/// Relies on csv::Writer with its default dialect: the record's fields
/// separated by commas, quoted (with doubled quotes) exactly where a
/// field holds a comma, quote, newline or carriage return, and the record
/// ended by a newline — so a record of two or more plain fields is the
/// fields joined by commas. (A record of no fields, or of one empty
/// field, is instead written as one quoted empty field, so those shapes
/// are left out of the second clause.)
#[verifier::external_body]
fn csv_encode_record(fields: &Vec<String>) -> (r: String)
    ensures
        r@ == csv_line_of(fields@.map_values(|f: String| f@)),
        (fields@.len() >= 2 && forall|i: int|
            0 <= i < fields@.len() ==> csv_plain_field((#[trigger] fields@[i])@)) ==> r@
            == join_commas(fields@.map_values(|f: String| f@)) + seq!['\n'],
{
    let mut w = csv::Writer::from_writer(Vec::new());
    let _ = w.write_record(fields.iter().map(|f| f.as_bytes()));
    let bytes = w.into_inner().unwrap_or_default();
    String::from_utf8(bytes).unwrap_or_default()
}

pub open spec fn header_fields() -> Seq<Seq<char>> {
    seq!["path"@, "type"@, "size"@]
}

/// The three fields of one row: path, `directory` or `file`, and the size
/// in decimal or the empty string.
pub open spec fn row_fields(r: RowV) -> Seq<Seq<char>> {
    seq![
        r.path,
        if r.is_dir {
            "directory"@
        } else {
            "file"@
        },
        match r.size {
            None => Seq::<char>::empty(),
            Some(n) => dec_str(n as nat),
        },
    ]
}

pub open spec fn rows_text(rows: Seq<RowV>) -> Seq<char>
    decreases rows.len(),
{
    if rows.len() == 0 {
        Seq::empty()
    } else {
        rows_text(rows.drop_last()) + csv_line_of(row_fields(rows.last()))
    }
}

/// The whole CSV payload: the header record, then one record per node in
/// pre-order.
pub open spec fn csv_text(t: NodeV) -> Seq<char> {
    csv_line_of(header_fields()) + rows_text(rows_of(t, Seq::empty()))
}

/// Serializes the tree as CSV: header `path,type,size`, one row per node
/// in pre-order.
pub fn export_csv(tree: &TreeNode) -> (r: String)
    ensures
        r@ == csv_text(tree@),
{
    let rows = collect_entries(tree, "");
    let ghost rv = row_views(rows@);
    let mut header: Vec<String> = Vec::new();
    header.push(String::from_str("path"));
    header.push(String::from_str("type"));
    header.push(String::from_str("size"));
    proof {
        assert(header@.map_values(|f: String| f@) =~~= header_fields());
    }
    let mut s = csv_encode_record(&header);
    proof {
        reveal_strlit("");
        assert(""@ =~= Seq::<char>::empty());
        assert(rv == rows_of(tree@, ""@));
        assert(rows_of(tree@, ""@) == rows_of(tree@, Seq::empty()));
        assert(rv.take(0) =~= Seq::<RowV>::empty());
        assert(s@ =~= csv_line_of(header_fields()) + rows_text(rv.take(0)));
    }
    let n = rows.len();
    let mut i: usize = 0;
    while i < n
        invariant
            i <= n,
            n == rows@.len(),
            rv == row_views(rows@),
            rv.len() == n,
            s@ == csv_line_of(header_fields()) + rows_text(rv.take(i as int)),
        decreases n - i,
    {
        let row = &rows[i];
        proof {
            assert(row@ == rv[i as int]);
        }
        let mut fields: Vec<String> = Vec::new();
        fields.push(row.path.clone());
        if row.is_dir {
            fields.push(String::from_str("directory"));
        } else {
            fields.push(String::from_str("file"));
        }
        match row.size {
            Some(sz) => fields.push(u64_to_string(sz)),
            None => fields.push(String::new()),
        }
        proof {
            assert(fields@.map_values(|f: String| f@) =~~= row_fields(rv[i as int]));
        }
        let line = csv_encode_record(&fields);
        s.append(line.as_str());
        i = i + 1;
        proof {
            let tk1 = rv.take(i as int);
            assert(tk1.drop_last() =~= rv.take(i - 1));
            assert(tk1.last() == rv[i - 1]);
            assert(s@ =~= csv_line_of(header_fields()) + rows_text(tk1));
        }
    }
    proof {
        assert(rv.take(n as int) =~= rv);
    }
    s
}

} // verus!
