//! The audit pipeline: collecting marked declaration names across files,
//! resolving each against its own file's declarations, and assembling the
//! report rows.

use vstd::prelude::*;
use vstd::string::StringExecFns;
use crate::decl::{Decl, decls_names, name_views, names_of_decls};
use crate::marker::{contains_marker, counterpart_of, is_marked, remove_marker};
use crate::parse::{parse_decls, parsed_decl_names};

verus! {

/// A marked declaration found during collection: the owning file's path
/// and the declaration's bare name.
#[derive(Debug, Clone, PartialEq, Eq)]
pub struct MarkedEntry {
    pub path: String,
    pub name: String,
}

impl View for MarkedEntry {
    type V = (Seq<char>, Seq<char>);

    open spec fn view(&self) -> (Seq<char>, Seq<char>) {
        (self.path@, self.name@)
    }
}

/// One row of the report: the file, the marked name, and the counterpart
/// found in the same file, or `None` when the file declares none.
#[derive(Debug, Clone, PartialEq, Eq)]
pub struct ReportRow {
    pub path: String,
    pub name: String,
    pub counterpart: Option<String>,
}

impl View for ReportRow {
    type V = (Seq<char>, Seq<char>, Option<Seq<char>>);

    open spec fn view(&self) -> (Seq<char>, Seq<char>, Option<Seq<char>>) {
        (
            self.path@,
            self.name@,
            match self.counterpart {
                Some(c) => Some(c@),
                None => None,
            },
        )
    }
}

/// Why a run failed.
#[derive(Debug, Clone, PartialEq, Eq)]
pub enum AuditError {
    /// A file's text is not a valid source file.
    ParseFailure { path: String },
    /// An entry's owning file is not among the given sources.
    MissingSource { path: String },
}

/// The views of a sequence of entries.
pub open spec fn entry_views(es: Seq<MarkedEntry>) -> Seq<(Seq<char>, Seq<char>)> {
    es.map_values(|e: MarkedEntry| e@)
}

/// The views of a sequence of report rows.
pub open spec fn row_views(rs: Seq<ReportRow>) -> Seq<(Seq<char>, Seq<char>, Option<Seq<char>>)> {
    rs.map_values(|r: ReportRow| r@)
}

/// The views of the (path, content) input files.
pub open spec fn files_view(fs: Seq<(String, String)>) -> Seq<(Seq<char>, Seq<char>)> {
    fs.map_values(|f: (String, String)| (f.0@, f.1@))
}

/// No two positions hold the same element.
pub open spec fn unique_rows<T>(rows: Seq<T>) -> bool {
    forall|i: int, j: int| 0 <= i < j < rows.len() ==> rows[i] != rows[j]
}

/// Adds a row to the aggregate unless it is already present.
pub open spec fn insert_row(
    rows: Seq<(Seq<char>, Seq<char>)>,
    row: (Seq<char>, Seq<char>),
) -> Seq<(Seq<char>, Seq<char>)> {
    if rows.contains(row) {
        rows
    } else {
        rows.push(row)
    }
}

/// Folds the marked names of one file into the aggregate, in order.
pub open spec fn insert_marked(
    rows: Seq<(Seq<char>, Seq<char>)>,
    path: Seq<char>,
    names: Seq<Seq<char>>,
) -> Seq<(Seq<char>, Seq<char>)>
    decreases names.len(),
{
    if names.len() == 0 {
        rows
    } else {
        let once = if is_marked(names[0]) {
            insert_row(rows, (path, names[0]))
        } else {
            rows
        };
        insert_marked(once, path, names.subrange(1, names.len() as int))
    }
}

/// The declaration names of a file's content, or empty when it does not
/// parse (collection never reaches that case: a failing file ends the
/// run first).
pub open spec fn file_names(content: Seq<char>) -> Seq<Seq<char>> {
    match parsed_decl_names(content) {
        Some(ns) => ns,
        None => Seq::empty(),
    }
}

/// Every given file parses.
pub open spec fn parse_all_ok(files: Seq<(Seq<char>, Seq<char>)>) -> bool {
    forall|k: int| 0 <= k < files.len() ==> parsed_decl_names(files[k].1) is Some
}

/// Folds the marked names of every file into the aggregate, file by file.
pub open spec fn collect_rows_from(
    rows: Seq<(Seq<char>, Seq<char>)>,
    files: Seq<(Seq<char>, Seq<char>)>,
) -> Seq<(Seq<char>, Seq<char>)>
    decreases files.len(),
{
    if files.len() == 0 {
        rows
    } else {
        collect_rows_from(
            insert_marked(rows, files[0].0, file_names(files[0].1)),
            files.subrange(1, files.len() as int),
        )
    }
}

/// The collection phase's aggregate over the given files.
pub open spec fn collected_rows(files: Seq<(Seq<char>, Seq<char>)>) -> Seq<
    (Seq<char>, Seq<char>),
> {
    collect_rows_from(Seq::empty(), files)
}

/// The content of the first file with the given path.
pub open spec fn lookup_content(
    files: Seq<(Seq<char>, Seq<char>)>,
    path: Seq<char>,
) -> Option<Seq<char>>
    decreases files.len(),
{
    if files.len() == 0 {
        None
    } else if files[0].0 == path {
        Some(files[0].1)
    } else {
        lookup_content(files.subrange(1, files.len() as int), path)
    }
}

/// The report row an entry resolves to: its counterpart name when the
/// entry's own file declares it, the absent sentinel otherwise.
pub open spec fn resolve_row(
    files: Seq<(Seq<char>, Seq<char>)>,
    e: (Seq<char>, Seq<char>),
) -> (Seq<char>, Seq<char>, Option<Seq<char>>) {
    let c = counterpart_of(e.1);
    match lookup_content(files, e.0) {
        Some(content) => match parsed_decl_names(content) {
            Some(ns) => if ns.contains(c) {
                (e.0, e.1, Some(c))
            } else {
                (e.0, e.1, None)
            },
            None => (e.0, e.1, None),
        },
        None => (e.0, e.1, None),
    }
}

/// The full report: every collected entry, in collection order, resolved
/// against its own file.
pub open spec fn audit_rows(files: Seq<(Seq<char>, Seq<char>)>) -> Seq<
    (Seq<char>, Seq<char>, Option<Seq<char>>),
> {
    collected_rows(files).map_values(|e: (Seq<char>, Seq<char>)| resolve_row(files, e))
}

/// What a run returns: the report rows, or nothing when some file does
/// not parse.
pub open spec fn audit_spec(files: Seq<(Seq<char>, Seq<char>)>) -> Option<
    Seq<(Seq<char>, Seq<char>, Option<Seq<char>>)>,
> {
    if parse_all_ok(files) {
        Some(audit_rows(files))
    } else {
        None
    }
}

/// Membership in a pushed sequence.
proof fn lemma_push_contains<T>(s: Seq<T>, x: T, y: T)
    ensures
        s.push(x).contains(y) <==> s.contains(y) || y == x,
{
    if s.push(x).contains(y) {
        let i = choose|i: int| 0 <= i < s.push(x).len() && s.push(x)[i] == y;
        if i < s.len() {
            assert(s[i] == y);
        }
    }
    if s.contains(y) {
        let i = choose|i: int| 0 <= i < s.len() && s[i] == y;
        assert(s.push(x)[i] == y);
    }
    if y == x {
        assert(s.push(x)[s.len() as int] == y);
    }
}

/// Inserting keeps the aggregate free of duplicates.
pub proof fn lemma_insert_row_unique(rows: Seq<(Seq<char>, Seq<char>)>, row: (Seq<char>, Seq<char>))
    requires
        unique_rows(rows),
    ensures
        unique_rows(insert_row(rows, row)),
{
    if !rows.contains(row) {
        let rs = rows.push(row);
        assert forall|i: int, j: int| 0 <= i < j < rs.len() implies rs[i] != rs[j] by {
            if j == rows.len() {
                assert(rs[i] == rows[i]);
                assert(rows.contains(rows[i]));
            }
        }
    }
}

/// Folding one file's names keeps the aggregate free of duplicates.
pub proof fn lemma_insert_marked_unique(
    rows: Seq<(Seq<char>, Seq<char>)>,
    path: Seq<char>,
    names: Seq<Seq<char>>,
)
    requires
        unique_rows(rows),
    ensures
        unique_rows(insert_marked(rows, path, names)),
    decreases names.len(),
{
    if names.len() > 0 {
        if is_marked(names[0]) {
            lemma_insert_row_unique(rows, (path, names[0]));
            lemma_insert_marked_unique(
                insert_row(rows, (path, names[0])),
                path,
                names.subrange(1, names.len() as int),
            );
        } else {
            lemma_insert_marked_unique(rows, path, names.subrange(1, names.len() as int));
        }
    }
}

/// Folding every file keeps the aggregate free of duplicates.
pub proof fn lemma_collect_rows_unique(
    rows: Seq<(Seq<char>, Seq<char>)>,
    files: Seq<(Seq<char>, Seq<char>)>,
)
    requires
        unique_rows(rows),
    ensures
        unique_rows(collect_rows_from(rows, files)),
    decreases files.len(),
{
    if files.len() > 0 {
        lemma_insert_marked_unique(rows, files[0].0, file_names(files[0].1));
        lemma_collect_rows_unique(
            insert_marked(rows, files[0].0, file_names(files[0].1)),
            files.subrange(1, files.len() as int),
        );
    }
}

/// The collector's aggregate never holds two identical (path, name)
/// rows, whatever the input files are.
pub proof fn lemma_collection_unique(files: Seq<(Seq<char>, Seq<char>)>)
    ensures
        unique_rows(collected_rows(files)),
{
    lemma_collect_rows_unique(Seq::empty(), files);
}

/// Whatever folding one file adds to the aggregate carries that file's
/// path.
pub proof fn lemma_insert_marked_membership(
    rows: Seq<(Seq<char>, Seq<char>)>,
    path: Seq<char>,
    names: Seq<Seq<char>>,
)
    ensures
        forall|r: (Seq<char>, Seq<char>)|
            #[trigger] insert_marked(rows, path, names).contains(r) ==> rows.contains(r) || r.0
                == path,
    decreases names.len(),
{
    if names.len() > 0 {
        let once = if is_marked(names[0]) {
            insert_row(rows, (path, names[0]))
        } else {
            rows
        };
        lemma_insert_marked_membership(once, path, names.subrange(1, names.len() as int));
        assert forall|r: (Seq<char>, Seq<char>)|
            #[trigger] insert_marked(rows, path, names).contains(r) implies rows.contains(r) || r.0
            == path by {
            assert(insert_marked(once, path, names.subrange(1, names.len() as int)).contains(r));
            if once.contains(r) && !rows.contains(r) {
                lemma_push_contains(rows, (path, names[0]), r);
                assert(r == (path, names[0]));
            }
        }
    }
}

/// Every collected row's path is one of the given files' paths.
pub proof fn lemma_collect_rows_membership(
    rows: Seq<(Seq<char>, Seq<char>)>,
    files: Seq<(Seq<char>, Seq<char>)>,
)
    ensures
        forall|r: (Seq<char>, Seq<char>)|
            #[trigger] collect_rows_from(rows, files).contains(r) ==> rows.contains(r) || exists|
                j: int,
            | 0 <= j < files.len() && files[j].0 == r.0,
    decreases files.len(),
{
    if files.len() > 0 {
        let mid = insert_marked(rows, files[0].0, file_names(files[0].1));
        let rest = files.subrange(1, files.len() as int);
        lemma_collect_rows_membership(mid, rest);
        lemma_insert_marked_membership(rows, files[0].0, file_names(files[0].1));
        assert forall|r: (Seq<char>, Seq<char>)|
            #[trigger] collect_rows_from(rows, files).contains(r) implies rows.contains(r)
            || exists|j: int| 0 <= j < files.len() && files[j].0 == r.0 by {
            if collect_rows_from(rows, files).contains(r) && !rows.contains(r) {
                assert(collect_rows_from(mid, rest).contains(r));
                if mid.contains(r) {
                    if r.0 == files[0].0 {
                        assert(files[0].0 == r.0);
                    }
                } else {
                    assert(exists|j: int| 0 <= j < rest.len() && rest[j].0 == r.0);
                    let j = choose|j: int| 0 <= j < rest.len() && rest[j].0 == r.0;
                    assert(rest[j] == files[j + 1]);
                    assert(files[j + 1].0 == r.0);
                }
            }
        }
    }
}

/// When some file carries the path, the lookup finds one.
pub proof fn lemma_lookup_some_if_match(files: Seq<(Seq<char>, Seq<char>)>, path: Seq<char>)
    requires
        exists|j: int| 0 <= j < files.len() && files[j].0 == path,
    ensures
        lookup_content(files, path) is Some,
    decreases files.len(),
{
    if files[0].0 != path {
        let j = choose|j: int| 0 <= j < files.len() && files[j].0 == path;
        let rest = files.subrange(1, files.len() as int);
        assert(rest[j - 1].0 == path);
        lemma_lookup_some_if_match(rest, path);
    }
}

/// What the lookup returns is the content of some file with that path.
pub proof fn lemma_lookup_is_some(files: Seq<(Seq<char>, Seq<char>)>, path: Seq<char>)
    requires
        lookup_content(files, path) is Some,
    ensures
        exists|j: int|
            0 <= j < files.len() && files[j].0 == path && files[j].1 == lookup_content(
                files,
                path,
            )->0,
    decreases files.len(),
{
    if files.len() > 0 && files[0].0 != path {
        let rest = files.subrange(1, files.len() as int);
        lemma_lookup_is_some(rest, path);
        let j = choose|j: int|
            0 <= j < rest.len() && rest[j].0 == path && rest[j].1 == lookup_content(rest, path)->0;
        assert(files[j + 1].0 == path && files[j + 1].1 == lookup_content(files, path)->0);
    }
}

/// The lookup finds the first file with the given path.
pub proof fn lemma_lookup_found(files: Seq<(Seq<char>, Seq<char>)>, path: Seq<char>, j: int)
    requires
        0 <= j < files.len(),
        files[j].0 == path,
        forall|i: int| 0 <= i < j ==> files[i].0 != path,
    ensures
        lookup_content(files, path) == Some(files[j].1),
    decreases j,
{
    if j > 0 {
        let rest = files.subrange(1, files.len() as int);
        assert(rest[j - 1].0 == path);
        assert forall|i: int| 0 <= i < j - 1 implies rest[i].0 != path by {
            assert(rest[i] == files[i + 1]);
        }
        lemma_lookup_found(rest, path, j - 1);
    }
}

/// When no file carries the path, the lookup finds none.
pub proof fn lemma_lookup_none(files: Seq<(Seq<char>, Seq<char>)>, path: Seq<char>)
    requires
        forall|i: int| 0 <= i < files.len() ==> files[i].0 != path,
    ensures
        lookup_content(files, path) is None,
    decreases files.len(),
{
    if files.len() > 0 {
        let rest = files.subrange(1, files.len() as int);
        assert forall|i: int| 0 <= i < rest.len() implies rest[i].0 != path by {
            assert(rest[i] == files[i + 1]);
        }
        lemma_lookup_none(rest, path);
    }
}

/// The audit is a function of the given paths and contents alone: equal
/// inputs yield the identical report.
pub proof fn lemma_audit_deterministic(
    a: Seq<(Seq<char>, Seq<char>)>,
    b: Seq<(Seq<char>, Seq<char>)>,
)
    requires
        a == b,
    ensures
        audit_spec(a) == audit_spec(b),
{
}

/// Resolution reads nothing outside the entry's own file: two file sets
/// that agree on the content found under the entry's path resolve the
/// entry identically. A same-named declaration in any other file cannot
/// turn an absent counterpart into a found one.
pub proof fn lemma_resolution_scoped(
    f1: Seq<(Seq<char>, Seq<char>)>,
    f2: Seq<(Seq<char>, Seq<char>)>,
    e: (Seq<char>, Seq<char>),
)
    requires
        lookup_content(f1, e.0) == lookup_content(f2, e.0),
    ensures
        resolve_row(f1, e) == resolve_row(f2, e),
{
}

/// Every collected entry stands in the report exactly once: the report
/// has one row per entry, in order, and no two rows name the same
/// (path, name) pair.
pub proof fn lemma_report_complete(files: Seq<(Seq<char>, Seq<char>)>)
    ensures
        audit_rows(files).len() == collected_rows(files).len(),
        forall|i: int|
            0 <= i < collected_rows(files).len() ==> (
            #[trigger] audit_rows(files)[i].0,
            audit_rows(files)[i].1,
            ) == collected_rows(files)[i],
        forall|i: int, j: int|
            0 <= i < j < audit_rows(files).len() ==> (
            #[trigger] audit_rows(files)[i].0,
            audit_rows(files)[i].1,
            ) != (#[trigger] audit_rows(files)[j].0, audit_rows(files)[j].1),
{
    lemma_collection_unique(files);
}


/// What folding one file adds to the aggregate, exactly: the rows held
/// before, plus that file's marked names under that file's path.
pub proof fn lemma_insert_marked_iff(
    rows: Seq<(Seq<char>, Seq<char>)>,
    path: Seq<char>,
    names: Seq<Seq<char>>,
)
    ensures
        forall|r: (Seq<char>, Seq<char>)|
            #![trigger insert_marked(rows, path, names).contains(r)]
            insert_marked(rows, path, names).contains(r) <==> (rows.contains(r) || (r.0 == path
                && names.contains(r.1) && is_marked(r.1))),
    decreases names.len(),
{
    if names.len() > 0 {
        let once = if is_marked(names[0]) {
            insert_row(rows, (path, names[0]))
        } else {
            rows
        };
        let rest = names.subrange(1, names.len() as int);
        lemma_insert_marked_iff(once, path, rest);
        assert forall|r: (Seq<char>, Seq<char>)|
            #![trigger insert_marked(rows, path, names).contains(r)]
            insert_marked(rows, path, names).contains(r) <==> (rows.contains(r) || (r.0 == path
                && names.contains(r.1) && is_marked(r.1))) by {
            assert(insert_marked(rows, path, names) == insert_marked(once, path, rest));
            if insert_marked(once, path, rest).contains(r) {
                if once.contains(r) && !rows.contains(r) {
                    lemma_push_contains(rows, (path, names[0]), r);
                    assert(r == (path, names[0]));
                    assert(names.contains(names[0]));
                }
                if !once.contains(r) {
                    let j = choose|j: int| 0 <= j < rest.len() && rest[j] == r.1;
                    assert(names[j + 1] == r.1);
                    assert(names.contains(names[j + 1]));
                }
            }
            if rows.contains(r) {
                if !once.contains(r) {
                    lemma_push_contains(rows, (path, names[0]), r);
                }
                assert(insert_marked(once, path, rest).contains(r));
            }
            if r.0 == path && names.contains(r.1) && is_marked(r.1) {
                let j = choose|j: int| 0 <= j < names.len() && names[j] == r.1;
                if j == 0 {
                    assert(r == (path, names[0]));
                    if !rows.contains(r) {
                        lemma_push_contains(rows, (path, names[0]), r);
                    }
                    assert(once.contains(r));
                } else {
                    assert(rest[j - 1] == r.1);
                    assert(rest.contains(r.1));
                }
                assert(insert_marked(once, path, rest).contains(r));
            }
        }
    }
}

/// What the collection phase gathers, exactly: a (path, name) pair is
/// collected precisely when some given file with that path declares that
/// name and the name carries the marker.
pub proof fn lemma_collection_exact(files: Seq<(Seq<char>, Seq<char>)>)
    ensures
        forall|r: (Seq<char>, Seq<char>)|
            #![trigger collected_rows(files).contains(r)]
            collected_rows(files).contains(r) <==> exists|j: int|
                0 <= j < files.len() && files[j].0 == r.0 && (#[trigger] file_names(
                    files[j].1,
                )).contains(r.1) && is_marked(r.1),
{
    lemma_collect_rows_iff(Seq::empty(), files);
}

/// The fold version of the exact collection law.
pub proof fn lemma_collect_rows_iff(
    rows: Seq<(Seq<char>, Seq<char>)>,
    files: Seq<(Seq<char>, Seq<char>)>,
)
    ensures
        forall|r: (Seq<char>, Seq<char>)|
            #![trigger collect_rows_from(rows, files).contains(r)]
            collect_rows_from(rows, files).contains(r) <==> (rows.contains(r) || exists|j: int|
                0 <= j < files.len() && files[j].0 == r.0 && (#[trigger] file_names(
                    files[j].1,
                )).contains(r.1) && is_marked(r.1)),
    decreases files.len(),
{
    if files.len() > 0 {
        let mid = insert_marked(rows, files[0].0, file_names(files[0].1));
        let rest = files.subrange(1, files.len() as int);
        lemma_collect_rows_iff(mid, rest);
        lemma_insert_marked_iff(rows, files[0].0, file_names(files[0].1));
        assert forall|r: (Seq<char>, Seq<char>)|
            #![trigger collect_rows_from(rows, files).contains(r)]
            collect_rows_from(rows, files).contains(r) <==> (rows.contains(r) || exists|j: int|
                0 <= j < files.len() && files[j].0 == r.0 && (#[trigger] file_names(
                    files[j].1,
                )).contains(r.1) && is_marked(r.1)) by {
            assert(collect_rows_from(rows, files) == collect_rows_from(mid, rest));
            if collect_rows_from(mid, rest).contains(r) {
                if mid.contains(r) && !rows.contains(r) {
                    assert(files[0].0 == r.0 && file_names(files[0].1).contains(r.1)
                        && is_marked(r.1));
                }
                if !mid.contains(r) {
                    let j = choose|j: int|
                        0 <= j < rest.len() && rest[j].0 == r.0 && file_names(
                            rest[j].1,
                        ).contains(r.1) && is_marked(r.1);
                    assert(rest[j] == files[j + 1]);
                    assert(files[j + 1].0 == r.0 && file_names(files[j + 1].1).contains(r.1));
                }
            }
            if rows.contains(r) {
                assert(mid.contains(r));
                assert(collect_rows_from(mid, rest).contains(r));
            }
            if exists|j: int|
                0 <= j < files.len() && files[j].0 == r.0 && (#[trigger] file_names(
                    files[j].1,
                )).contains(r.1) && is_marked(r.1) {
                let j = choose|j: int|
                    0 <= j < files.len() && files[j].0 == r.0 && (#[trigger] file_names(
                        files[j].1,
                    )).contains(r.1) && is_marked(r.1);
                if j == 0 {
                    assert(mid.contains(r));
                } else {
                    assert(rest[j - 1] == files[j]);
                    assert(rest[j - 1].0 == r.0 && file_names(rest[j - 1].1).contains(r.1));
                }
                assert(collect_rows_from(mid, rest).contains(r));
            }
        }
    }
}

/// A marked entry is paired with its counterpart exactly when the
/// declarations of its own file hold the counterpart name.
pub proof fn lemma_counterpart_correct(
    files: Seq<(Seq<char>, Seq<char>)>,
    e: (Seq<char>, Seq<char>),
    ns: Seq<Seq<char>>,
)
    requires
        lookup_content(files, e.0) is Some,
        parsed_decl_names(lookup_content(files, e.0)->0) == Some(ns),
    ensures
        resolve_row(files, e).2 == if ns.contains(counterpart_of(e.1)) {
            Some(counterpart_of(e.1))
        } else {
            None::<Seq<char>>
        },
{
}

/// The aggregate of marked declarations found during collection, with
/// its uniqueness invariant: no (path, name) pair is held twice.
pub struct MarkerCollector {
    pub entries: Vec<MarkedEntry>,
}

impl View for MarkerCollector {
    type V = Seq<(Seq<char>, Seq<char>)>;

    open spec fn view(&self) -> Seq<(Seq<char>, Seq<char>)> {
        entry_views(self.entries@)
    }
}

impl MarkerCollector {
    /// The aggregate never holds two identical (path, name) rows.
    pub open spec fn wf(&self) -> bool {
        unique_rows(self@)
    }

    /// An empty aggregate.
    pub fn new() -> (c: MarkerCollector)
        ensures
            c@ == Seq::<(Seq<char>, Seq<char>)>::empty(),
            c.wf(),
    {
        let c = MarkerCollector { entries: Vec::new() };
        proof {
            assert(c@ =~= Seq::<(Seq<char>, Seq<char>)>::empty());
        }
        c
    }

    /// Whether the aggregate already holds the pair.
    pub fn holds(&self, path: &String, name: &String) -> (r: bool)
        ensures
            r == self@.contains((path@, name@)),
    {
        let mut t: usize = 0;
        while t < self.entries.len()
            invariant
                t <= self.entries@.len(),
                forall|i: int| 0 <= i < t ==> self@[i] != (path@, name@),
            decreases self.entries@.len() - t,
        {
            let e = &self.entries[t];
            if e.path.eq(path) && e.name.eq(name) {
                proof {
                    assert(self@[t as int] == (path@, name@));
                }
                return true;
            }
            proof {
                assert(self@[t as int] == (self.entries@[t as int].path@, self.entries@[t as int].name@));
            }
            t += 1;
        }
        proof {
            if self@.contains((path@, name@)) {
                let i = choose|i: int| 0 <= i < self@.len() && self@[i] == (path@, name@);
                assert(self@[i] != (path@, name@));
            }
        }
        false
    }

    /// Records one pair, unless it is already held.
    pub fn record(&mut self, path: &String, name: &String)
        requires
            old(self).wf(),
        ensures
            final(self).wf(),
            final(self)@ == insert_row(old(self)@, (path@, name@)),
    {
        proof {
            lemma_insert_row_unique(self@, (path@, name@));
        }
        if !self.holds(path, name) {
            self.entries.push(MarkedEntry { path: path.clone(), name: name.clone() });
            proof {
                assert(self@ =~= old(self)@.push((path@, name@)));
            }
        }
    }

    /// Folds every marked declaration name of one parsed file into the
    /// aggregate, in source order, deduplicating against what is held.
    pub fn collect_from(&mut self, path: &String, decls: &Vec<Decl>)
        requires
            old(self).wf(),
        ensures
            final(self).wf(),
            final(self)@ == insert_marked(old(self)@, path@, decls_names(decls@)),
    {
        let names = names_of_decls(decls);
        let ghost nv = name_views(names@);
        let ghost orig = self@;
        proof {
            assert(nv.subrange(0, nv.len() as int) =~= nv);
        }
        let mut t: usize = 0;
        while t < names.len()
            invariant
                t <= names@.len(),
                nv == name_views(names@),
                nv.len() == names@.len(),
                self.wf(),
                insert_marked(self@, path@, nv.subrange(t as int, nv.len() as int))
                    == insert_marked(orig, path@, nv),
            decreases names@.len() - t,
        {
            let ghost suf = nv.subrange(t as int, nv.len() as int);
            proof {
                assert(suf[0] == nv[t as int]);
                assert(nv[t as int] == names@[t as int]@);
                assert(suf.subrange(1, suf.len() as int) =~= nv.subrange(
                    t as int + 1,
                    nv.len() as int,
                ));
            }
            if contains_marker(names[t].as_str()) {
                self.record(path, &names[t]);
            }
            t += 1;
        }
        proof {
            assert(nv.subrange(names@.len() as int, nv.len() as int) =~= Seq::<Seq<char>>::empty());
        }
    }

    /// Parses one file's text and folds its marked declaration names
    /// into the aggregate; a file that does not parse changes nothing
    /// and fails the call.
    pub fn collect_source(&mut self, path: &String, content: &str) -> (r: Result<(), AuditError>)
        requires
            old(self).wf(),
        ensures
            final(self).wf(),
            match r {
                Ok(u) => parsed_decl_names(content@) is Some && final(self)@ == insert_marked(
                    old(self)@,
                    path@,
                    parsed_decl_names(content@)->0,
                ),
                Err(e) => parsed_decl_names(content@) is None && final(self)@ == old(self)@
                    && match e {
                    AuditError::ParseFailure { path: p } => p@ == path@,
                    AuditError::MissingSource { .. } => false,
                },
            },
    {
        match parse_decls(content) {
            Some(decls) => {
                self.collect_from(path, &decls);
                Ok(())
            },
            None => Err(AuditError::ParseFailure { path: path.clone() }),
        }
    }
}

/// The absent sentinel's literal text.
pub open spec fn cell_text(c: Option<Seq<char>>) -> Seq<char> {
    match c {
        Some(s) => s,
        None => "None"@,
    }
}

/// The index of the first file with the given path.
fn find_source(files: &Vec<(String, String)>, path: &String) -> (r: Option<usize>)
    ensures
        match r {
            Some(j) => j < files@.len() && files@[j as int].0@ == path@ && (forall|i: int|
                0 <= i < j ==> files@[i].0@ != path@),
            None => forall|i: int| 0 <= i < files@.len() ==> files@[i].0@ != path@,
        },
{
    let mut j: usize = 0;
    while j < files.len()
        invariant
            j <= files@.len(),
            forall|i: int| 0 <= i < j ==> files@[i].0@ != path@,
        decreases files@.len() - j,
    {
        if files[j].0.eq(path) {
            return Some(j);
        }
        j += 1;
    }
    None
}

/// Whether the parsed file declares a function-like item under exactly
/// the given name, at any depth the traversal covers.
pub fn find_decl_named(decls: &Vec<Decl>, target: &String) -> (r: bool)
    ensures
        r == decls_names(decls@).contains(target@),
{
    let names = names_of_decls(decls);
    let mut t: usize = 0;
    while t < names.len()
        invariant
            t <= names@.len(),
            name_views(names@) == decls_names(decls@),
            forall|i: int| 0 <= i < t ==> name_views(names@)[i] != target@,
        decreases names@.len() - t,
    {
        if names[t].eq(target) {
            proof {
                assert(name_views(names@)[t as int] == target@);
            }
            return true;
        }
        proof {
            assert(name_views(names@)[t as int] == names@[t as int]@);
        }
        t += 1;
    }
    proof {
        if decls_names(decls@).contains(target@) {
            let i = choose|i: int|
                0 <= i < decls_names(decls@).len() && decls_names(decls@)[i] == target@;
            assert(name_views(names@)[i] != target@);
        }
    }
    false
}

/// Resolves one collected entry against the given sources: re-parses the
/// entry's own file and searches it for the checked counterpart name.
/// Fails when the entry's file is not among the sources or does not
/// parse; resolution on the unchanged sources that the entry was
/// collected from cannot fail.
pub fn resolve_entry(entry: &MarkedEntry, files: &Vec<(String, String)>) -> (r: Result<
    ReportRow,
    AuditError,
>)
    ensures
        match r {
            Ok(row) => lookup_content(files_view(files@), entry@.0) is Some
                && parsed_decl_names(lookup_content(files_view(files@), entry@.0)->0) is Some
                && row@ == resolve_row(files_view(files@), entry@),
            Err(e) => match e {
                AuditError::MissingSource { path } => lookup_content(files_view(files@), entry@.0)
                    is None && path@ == entry@.0,
                AuditError::ParseFailure { path } => lookup_content(files_view(files@), entry@.0)
                    is Some && parsed_decl_names(
                    lookup_content(files_view(files@), entry@.0)->0,
                ) is None && path@ == entry@.0,
            },
        },
{
    let ghost fv = files_view(files@);
    match find_source(files, &entry.path) {
        None => {
            proof {
                assert(fv.len() == files@.len());
                assert forall|i: int| 0 <= i < fv.len() implies fv[i].0 != entry@.0 by {
                    assert(fv[i] == (files@[i].0@, files@[i].1@));
                }
                lemma_lookup_none(fv, entry@.0);
            }
            Err(AuditError::MissingSource { path: entry.path.clone() })
        },
        Some(j) => {
            proof {
                assert(fv[j as int] == (files@[j as int].0@, files@[j as int].1@));
                assert forall|i: int| 0 <= i < j implies fv[i].0 != entry@.0 by {
                    assert(fv[i] == (files@[i].0@, files@[i].1@));
                }
                lemma_lookup_found(fv, entry@.0, j as int);
            }
            match parse_decls(files[j].1.as_str()) {
                None => Err(AuditError::ParseFailure { path: entry.path.clone() }),
                Some(decls) => {
                    let target = remove_marker(entry.name.as_str());
                    let found = find_decl_named(&decls, &target);
                    let row = ReportRow {
                        path: entry.path.clone(),
                        name: entry.name.clone(),
                        counterpart: if found {
                            Some(target)
                        } else {
                            None
                        },
                    };
                    proof {
                        assert(parsed_decl_names(fv[j as int].1) == Some(decls_names(decls@)));
                        assert(row@ == resolve_row(fv, entry@));
                    }
                    Ok(row)
                },
            }
        },
    }
}

/// Runs the whole audit on in-memory (path, content) sources: collects
/// every marked declaration name, resolves each against its own file,
/// and returns the report rows in collection order. Fails on the first
/// file that does not parse, leaving no report.
pub fn run_audit(files: &Vec<(String, String)>) -> (r: Result<Vec<ReportRow>, AuditError>)
    ensures
        match r {
            Ok(rows) => parse_all_ok(files_view(files@)) && row_views(rows@) == audit_rows(
                files_view(files@),
            ),
            Err(e) => !parse_all_ok(files_view(files@)) && match e {
                AuditError::ParseFailure { path } => exists|k: int|
                    0 <= k < files@.len() && parsed_decl_names(
                        #[trigger] files_view(files@)[k].1,
                    ) is None && (forall|i: int|
                        0 <= i < k ==> parsed_decl_names(files_view(files@)[i].1) is Some)
                        && path@ == files_view(files@)[k].0,
                AuditError::MissingSource { .. } => false,
            },
        },
{
    let ghost fv = files_view(files@);
    let mut collector = MarkerCollector::new();
    proof {
        assert(fv.subrange(0, fv.len() as int) =~= fv);
    }
    let mut k: usize = 0;
    while k < files.len()
        invariant
            k <= files@.len(),
            fv == files_view(files@),
            fv.len() == files@.len(),
            collector.wf(),
            forall|i: int| 0 <= i < k ==> parsed_decl_names(#[trigger] fv[i].1) is Some,
            collect_rows_from(collector@, fv.subrange(k as int, fv.len() as int))
                == collected_rows(fv),
        decreases files@.len() - k,
    {
        proof {
            assert(fv[k as int] == (files@[k as int].0@, files@[k as int].1@));
        }
        match parse_decls(files[k].1.as_str()) {
            None => {
                proof {
                    assert(parsed_decl_names(fv[k as int].1) is None);
                    assert(!parse_all_ok(fv));
                }
                return Err(AuditError::ParseFailure { path: files[k].0.clone() });
            },
            Some(decls) => {
                let ghost pre = collector@;
                collector.collect_from(&files[k].0, &decls);
                proof {
                    let suf = fv.subrange(k as int, fv.len() as int);
                    assert(suf[0] == fv[k as int]);
                    assert(suf.subrange(1, suf.len() as int) =~= fv.subrange(
                        k as int + 1,
                        fv.len() as int,
                    ));
                    assert(file_names(fv[k as int].1) == decls_names(decls@));
                    assert(collector@ == insert_marked(
                        pre,
                        fv[k as int].0,
                        file_names(fv[k as int].1),
                    ));
                }
            },
        }
        k += 1;
    }
    proof {
        assert(fv.subrange(files@.len() as int, fv.len() as int) =~= Seq::<
            (Seq<char>, Seq<char>),
        >::empty());
        assert(collector@ == collected_rows(fv));
        assert(parse_all_ok(fv));
        lemma_collect_rows_membership(Seq::empty(), fv);
    }
    let mut rows: Vec<ReportRow> = Vec::new();
    let mut t: usize = 0;
    while t < collector.entries.len()
        invariant
            t <= collector.entries@.len(),
            fv == files_view(files@),
            fv.len() == files@.len(),
            parse_all_ok(fv),
            collector@ == collected_rows(fv),
            collector@.len() == collector.entries@.len(),
            forall|r: (Seq<char>, Seq<char>)|
                #[trigger] collected_rows(fv).contains(r) ==> exists|j: int|
                    0 <= j < fv.len() && fv[j].0 == r.0,
            rows@.len() == t,
            forall|i: int| 0 <= i < t ==> (#[trigger] rows@[i])@ == resolve_row(fv, collector@[i]),
        decreases collector.entries@.len() - t,
    {
        let e = &collector.entries[t];
        proof {
            assert(collector@[t as int] == e@);
            assert(collected_rows(fv)[t as int] == e@);
            assert(collected_rows(fv).contains(e@));
        }
        match resolve_entry(e, files) {
            Ok(row) => {
                rows.push(row);
            },
            Err(err) => {
                proof {
                    let j = choose|j: int| 0 <= j < fv.len() && fv[j].0 == e@.0;
                    lemma_lookup_some_if_match(fv, e@.0);
                    match err {
                        AuditError::MissingSource { .. } => {
                            assert(false);
                        },
                        AuditError::ParseFailure { .. } => {
                            lemma_lookup_is_some(fv, e@.0);
                            let jj = choose|jj: int|
                                0 <= jj < fv.len() && fv[jj].0 == e@.0 && fv[jj].1
                                    == lookup_content(fv, e@.0)->0;
                            assert(parsed_decl_names(fv[jj].1) is Some);
                            assert(false);
                        },
                    }
                }
                return Err(err);
            },
        }
        t += 1;
    }
    proof {
        assert(row_views(rows@) =~= audit_rows(fv));
    }
    Ok(rows)
}

/// Converts the report rows into the literal three-column cells handed
/// to the report sink: file path, marked name, and the counterpart or
/// the absent sentinel's text.
pub fn report_cells(rows: &Vec<ReportRow>) -> (r: Vec<(String, String, String)>)
    ensures
        r@.len() == rows@.len(),
        forall|i: int|
            0 <= i < rows@.len() ==> (#[trigger] r@[i]).0@ == rows@[i]@.0 && r@[i].1@ == rows@[i]@.1
                && r@[i].2@ == cell_text(rows@[i]@.2),
{
    let mut out: Vec<(String, String, String)> = Vec::new();
    let mut t: usize = 0;
    while t < rows.len()
        invariant
            t <= rows@.len(),
            out@.len() == t,
            forall|i: int|
                0 <= i < t ==> (#[trigger] out@[i]).0@ == rows@[i]@.0 && out@[i].1@ == rows@[i]@.1
                    && out@[i].2@ == cell_text(rows@[i]@.2),
        decreases rows@.len() - t,
    {
        let row = &rows[t];
        let third = match &row.counterpart {
            Some(c) => c.clone(),
            None => String::from_str("None"),
        };
        out.push((row.path.clone(), row.name.clone(), third));
        t += 1;
    }
    out
}

} // verus!
