//! The state of the shell: aliases, shell variables, and the environment that
//! child processes inherit.

use vstd::prelude::*;

use crate::order::{before, comes_before, lemma_before_total, lemma_before_transitive};
use crate::text::same;

verus! {

/// A row of a table: a name and its text.
pub type Row = (Seq<char>, Seq<char>);

/// The models of a run of rows.
pub open spec fn rows_view(v: Seq<(String, String)>) -> Seq<Row> {
    v.map_values(|e: (String, String)| (e.0@, e.1@))
}

/// Whether the names of the rows ascend. So no name occurs twice.
pub open spec fn names_ascend(rows: Seq<Row>) -> bool {
    forall|i: int, j: int|
        0 <= i < j < rows.len() ==> before((#[trigger] rows[i]).0, (#[trigger] rows[j]).0)
}

/// Whether a row is named `name`.
pub open spec fn has_row(rows: Seq<Row>, name: Seq<char>) -> bool {
    exists|i: int| 0 <= i < rows.len() && (#[trigger] rows[i]).0 == name
}

/// The rows as a map.
pub open spec fn map_of(rows: Seq<Row>) -> Map<Seq<char>, Seq<char>> {
    Map::new(
        |name: Seq<char>| has_row(rows, name),
        |name: Seq<char>|
            rows[choose|i: int| 0 <= i < rows.len() && (#[trigger] rows[i]).0 == name].1,
    )
}

/// Whether `rows` lists `table` in the order of its names.
pub open spec fn lists_table(rows: Seq<Row>, table: Map<Seq<char>, Seq<char>>) -> bool {
    names_ascend(rows) && map_of(rows) == table
}

/// The map has the text of each row under its name.
pub proof fn lemma_row_in_map(rows: Seq<Row>, i: int)
    requires
        names_ascend(rows),
        0 <= i < rows.len(),
    ensures
        map_of(rows).dom().contains(rows[i].0),
        map_of(rows)[rows[i].0] == rows[i].1,
{
    let name = rows[i].0;
    assert(has_row(rows, name));
    let j = choose|j: int| 0 <= j < rows.len() && (#[trigger] rows[j]).0 == name;
    lemma_before_total(name, name);
    if j < i {
        assert(before(rows[j].0, rows[i].0));
    } else if i < j {
        assert(before(rows[i].0, rows[j].0));
    }
}

/// A name that would stand at `p` between its neighbours, but does not, has no
/// row.
proof fn lemma_no_row(rows: Seq<Row>, p: int, name: Seq<char>)
    requires
        names_ascend(rows),
        0 <= p <= rows.len(),
        forall|k: int| 0 <= k < p ==> before((#[trigger] rows[k]).0, name),
        p < rows.len() ==> !before(rows[p].0, name) && rows[p].0 != name,
    ensures
        !has_row(rows, name),
        forall|k: int| p <= k < rows.len() ==> before(name, (#[trigger] rows[k]).0),
{
    assert forall|k: int| p <= k < rows.len() implies before(name, (#[trigger] rows[k]).0) by {
        lemma_before_total(rows[p].0, name);
        if k > p {
            assert(before(rows[p].0, rows[k].0));
            lemma_before_transitive(name, rows[p].0, rows[k].0);
        }
    }
    assert forall|k: int| 0 <= k < rows.len() implies (#[trigger] rows[k]).0 != name by {
        lemma_before_total(rows[k].0, name);
    }
}

/// A table of texts by name. Its rows are kept in the order of their names.
#[derive(Debug)]
pub struct Table {
    rows: Vec<(String, String)>,
}

impl Table {
    #[verifier::type_invariant]
    spec fn in_order(&self) -> bool {
        names_ascend(rows_view(self.rows@))
    }
}

impl View for Table {
    type V = Map<Seq<char>, Seq<char>>;

    closed spec fn view(&self) -> Map<Seq<char>, Seq<char>> {
        map_of(rows_view(self.rows@))
    }
}

/// The first row whose name does not come before `name`.
fn row_place(rows: &Vec<(String, String)>, name: &str) -> (p: usize)
    ensures
        p <= rows@.len(),
        forall|k: int| 0 <= k < p ==> before((#[trigger] rows_view(rows@)[k]).0, name@),
        p < rows@.len() ==> !before(rows_view(rows@)[p as int].0, name@),
{
    let ghost view = rows_view(rows@);
    let mut p: usize = 0;
    while p < rows.len() && comes_before(&rows[p].0, name)
        invariant
            p <= rows@.len(),
            view == rows_view(rows@),
            forall|k: int| 0 <= k < p ==> before((#[trigger] view[k]).0, name@),
        decreases rows@.len() - p,
    {
        assert(view[p as int].0 == rows@[p as int].0@);
        p = p + 1;
    }
    p
}

impl Table {
    pub fn new() -> (r: Self)
        ensures
            r@ == Map::<Seq<char>, Seq<char>>::empty(),
    {
        let rows: Vec<(String, String)> = Vec::new();
        assert(map_of(rows_view(rows@)) =~= Map::<Seq<char>, Seq<char>>::empty());
        Table { rows }
    }

    /// The text under `name`.
    pub fn get(&self, name: &str) -> (r: Option<String>)
        ensures
            r is Some == self@.dom().contains(name@),
            r is Some ==> r->0@ == self@[name@],
    {
        proof {
            use_type_invariant(self);
        }
        let p: usize = row_place(&self.rows, name);
        let ghost view = rows_view(self.rows@);
        if p < self.rows.len() && same(&self.rows[p].0, name) {
            proof {
                assert(view[p as int].0 == name@);
                lemma_row_in_map(view, p as int);
            }
            Some(self.rows[p].1.clone())
        } else {
            proof {
                lemma_no_row(view, p as int, name@);
            }
            None
        }
    }

    /// Puts `text` under `name`, in place of what was there.
    pub fn insert(&mut self, name: String, text: String)
        ensures
            final(self)@ == old(self)@.insert(name@, text@),
    {
        proof {
            use_type_invariant(&*self);
        }
        let ghost goal = self@.insert(name@, text@);
        let mut rows: Vec<(String, String)> = Vec::new();
        core::mem::swap(&mut rows, &mut self.rows);
        let ghost view = rows_view(rows@);
        let ghost row = (name@, text@);
        let p: usize = row_place(&rows, &name);
        if p < rows.len() && same(&rows[p].0, &name) {
            assert(view[p as int].0 == name@);
            rows[p] = (name, text);
            proof {
                let after = rows_view(rows@);
                assert(after =~= view.update(p as int, row));
                lemma_update(view, p as int, row);
            }
        } else {
            proof {
                lemma_no_row(view, p as int, name@);
            }
            rows.insert(p, (name, text));
            proof {
                let after = rows_view(rows@);
                assert(after =~= view.insert(p as int, row));
                lemma_insert(view, p as int, row);
            }
        }
        self.rows = rows;
    }

    /// Takes away what is under `name`. Tells whether anything was.
    pub fn remove(&mut self, name: &str) -> (r: bool)
        ensures
            r == old(self)@.dom().contains(name@),
            final(self)@ == old(self)@.remove(name@),
    {
        proof {
            use_type_invariant(&*self);
        }
        let mut rows: Vec<(String, String)> = Vec::new();
        core::mem::swap(&mut rows, &mut self.rows);
        let ghost view = rows_view(rows@);
        let p: usize = row_place(&rows, name);
        let mut found: bool = false;
        if p < rows.len() && same(&rows[p].0, name) {
            assert(view[p as int].0 == name@);
            rows.remove(p);
            found = true;
            proof {
                let after = rows_view(rows@);
                assert(after =~= view.remove(p as int));
                lemma_remove(view, p as int);
            }
        } else {
            proof {
                lemma_no_row(view, p as int, name@);
                assert(map_of(view).remove(name@) =~= map_of(view));
            }
        }
        self.rows = rows;
        found
    }

    /// The rows in the order of their names.
    pub fn rows(&self) -> (r: &Vec<(String, String)>)
        ensures
            lists_table(rows_view(r@), self@),
    {
        proof {
            use_type_invariant(self);
        }
        &self.rows
    }
}

proof fn lemma_update(rows: Seq<Row>, p: int, row: Row)
    requires
        names_ascend(rows),
        0 <= p < rows.len(),
        rows[p].0 == row.0,
    ensures
        names_ascend(rows.update(p, row)),
        map_of(rows.update(p, row)) == map_of(rows).insert(row.0, row.1),
{
    let after = rows.update(p, row);
    assert forall|i: int, j: int| 0 <= i < j < after.len() implies before(
        (#[trigger] after[i]).0,
        (#[trigger] after[j]).0,
    ) by {
        assert(after[i].0 == rows[i].0 && after[j].0 == rows[j].0);
    }
    lemma_same_rows(rows, after, row, |i: int| i, |i: int| i, p);
}

proof fn lemma_insert(rows: Seq<Row>, p: int, row: Row)
    requires
        names_ascend(rows),
        0 <= p <= rows.len(),
        forall|k: int| 0 <= k < p ==> before((#[trigger] rows[k]).0, row.0),
        forall|k: int| p <= k < rows.len() ==> before(row.0, (#[trigger] rows[k]).0),
    ensures
        names_ascend(rows.insert(p, row)),
        map_of(rows.insert(p, row)) == map_of(rows).insert(row.0, row.1),
{
    let after = rows.insert(p, row);
    assert forall|i: int, j: int| 0 <= i < j < after.len() implies before(
        (#[trigger] after[i]).0,
        (#[trigger] after[j]).0,
    ) by {
        let i0 = if i < p {
            i
        } else {
            i - 1
        };
        let j0 = if j < p {
            j
        } else {
            j - 1
        };
        if i == p {
            assert(after[j] == rows[j0]);
        } else if j == p {
            assert(after[i] == rows[i0]);
        } else {
            assert(after[i] == rows[i0] && after[j] == rows[j0]);
        }
    }
    lemma_same_rows(
        rows,
        after,
        row,
        |i: int| if i < p {
            i
        } else {
            i + 1
        },
        |i: int| if i < p {
            i
        } else {
            i - 1
        },
        p,
    );
}

/// If `after` holds `row` at `p`, and elsewhere the rows of `rows` with other
/// names, it is `rows` with `row` put in.
proof fn lemma_same_rows(
    rows: Seq<Row>,
    after: Seq<Row>,
    row: Row,
    to: spec_fn(int) -> int,
    from: spec_fn(int) -> int,
    p: int,
)
    requires
        names_ascend(rows),
        names_ascend(after),
        0 <= p < after.len(),
        after[p] == row,
        forall|i: int|
            0 <= i < rows.len() && (#[trigger] rows[i]).0 != row.0 ==> 0 <= to(i) < after.len()
                && after[to(i)] == rows[i],
        forall|j: int|
            0 <= j < after.len() && j != p ==> 0 <= from(j) < rows.len() && #[trigger] after[j]
                == rows[from(j)],
    ensures
        map_of(after) == map_of(rows).insert(row.0, row.1),
{
    let m = map_of(after);
    let n = map_of(rows).insert(row.0, row.1);
    lemma_row_in_map(after, p);
    assert forall|name: Seq<char>| m.dom().contains(name) == #[trigger] n.dom().contains(name) by {
        if has_row(after, name) && name != row.0 {
            let j = choose|j: int| 0 <= j < after.len() && (#[trigger] after[j]).0 == name;
            assert(rows[from(j)].0 == name);
        }
        if has_row(rows, name) && name != row.0 {
            let i = choose|i: int| 0 <= i < rows.len() && (#[trigger] rows[i]).0 == name;
            assert(after[to(i)].0 == name);
        }
    }
    assert forall|name: Seq<char>| #[trigger] m.dom().contains(name) implies m[name] == n[name] by {
        if name != row.0 {
            let j = choose|j: int| 0 <= j < after.len() && (#[trigger] after[j]).0 == name;
            lemma_row_in_map(after, j);
            assert(after[j] == rows[from(j)]);
            lemma_row_in_map(rows, from(j));
        }
    }
    assert(m =~= n);
}

proof fn lemma_remove(rows: Seq<Row>, p: int)
    requires
        names_ascend(rows),
        0 <= p < rows.len(),
    ensures
        names_ascend(rows.remove(p)),
        map_of(rows).dom().contains(rows[p].0),
        map_of(rows.remove(p)) == map_of(rows).remove(rows[p].0),
{
    let after = rows.remove(p);
    let name = rows[p].0;
    lemma_row_in_map(rows, p);
    assert forall|i: int, j: int| 0 <= i < j < after.len() implies before(
        (#[trigger] after[i]).0,
        (#[trigger] after[j]).0,
    ) by {
        let i0 = if i < p {
            i
        } else {
            i + 1
        };
        let j0 = if j < p {
            j
        } else {
            j + 1
        };
        assert(after[i] == rows[i0] && after[j] == rows[j0]);
    }
    let m = map_of(after);
    let n = map_of(rows).remove(name);
    assert forall|x: Seq<char>| m.dom().contains(x) == #[trigger] n.dom().contains(x) by {
        if has_row(after, x) {
            let j = choose|j: int| 0 <= j < after.len() && (#[trigger] after[j]).0 == x;
            let j0 = if j < p {
                j
            } else {
                j + 1
            };
            assert(rows[j0] == after[j]);
            lemma_before_total(x, x);
            if j0 < p {
                assert(before(rows[j0].0, rows[p].0));
            } else {
                assert(before(rows[p].0, rows[j0].0));
            }
        }
        if has_row(rows, x) && x != name {
            let i = choose|i: int| 0 <= i < rows.len() && (#[trigger] rows[i]).0 == x;
            let i0 = if i < p {
                i
            } else {
                i - 1
            };
            assert(after[i0] == rows[i]);
        }
    }
    assert forall|x: Seq<char>| #[trigger] m.dom().contains(x) implies m[x] == n[x] by {
        let j = choose|j: int| 0 <= j < after.len() && (#[trigger] after[j]).0 == x;
        let j0 = if j < p {
            j
        } else {
            j + 1
        };
        lemma_row_in_map(after, j);
        assert(rows[j0] == after[j]);
        lemma_row_in_map(rows, j0);
        assert(n.dom().contains(x));
    }
    assert(m =~= n);
}

/// A table has one listing.
pub proof fn law_listing_is_determined(
    a: Seq<Row>,
    b: Seq<Row>,
    table: Map<Seq<char>, Seq<char>>,
)
    requires
        lists_table(a, table),
        lists_table(b, table),
    ensures
        a == b,
    decreases a.len(),
{
    if a.len() == 0 || b.len() == 0 {
        if a.len() > 0 {
            lemma_row_in_map(a, 0);
            assert(has_row(b, a[0].0));
        }
        if b.len() > 0 {
            lemma_row_in_map(b, 0);
            assert(has_row(a, b[0].0));
        }
        assert(a =~= b);
    } else {
        let la = a.len() - 1;
        let lb = b.len() - 1;
        lemma_row_in_map(a, la);
        lemma_row_in_map(b, lb);
        assert(has_row(b, a[la].0));
        assert(has_row(a, b[lb].0));
        let i = choose|i: int| 0 <= i < b.len() && (#[trigger] b[i]).0 == a[la].0;
        let j = choose|j: int| 0 <= j < a.len() && (#[trigger] a[j]).0 == b[lb].0;
        lemma_before_total(a[la].0, b[lb].0);
        if i < lb {
            assert(before(b[i].0, b[lb].0));
            if j < la {
                assert(before(a[j].0, a[la].0));
            }
        }
        if j < la {
            assert(before(a[j].0, a[la].0));
        }
        assert(a[la].0 == b[lb].0);
        assert(a[la] == b[lb]);
        lemma_remove(a, la);
        lemma_remove(b, lb);
        law_listing_is_determined(a.remove(la), b.remove(lb), table.remove(a[la].0));
        assert(a =~= a.remove(la).push(a[la]));
        assert(b =~= b.remove(lb).push(b[lb]));
    }
}

/// The state that commands change.
///
/// `env` is the environment that child processes inherit. A shell variable is
/// exported by putting it there too.
#[derive(Debug)]
pub struct Shell {
    pub aliases: Table,
    pub vars: Table,
    pub env: Table,
}

impl Shell {
    /// The variables that `$NAME` reads: those of the shell first, so that an
    /// assignment can shadow an inherited variable, then the environment.
    pub open spec fn scope(&self) -> Map<Seq<char>, Seq<char>> {
        self.env@.union_prefer_right(self.vars@)
    }

    /// A shell without aliases or variables that inherits `env`.
    pub fn new(env: Table) -> (r: Self)
        ensures
            r.aliases@ == Map::<Seq<char>, Seq<char>>::empty(),
            r.vars@ == Map::<Seq<char>, Seq<char>>::empty(),
            r.env@ == env@,
    {
        Shell { aliases: Table::new(), vars: Table::new(), env }
    }

    /// The value of a variable for `$NAME` expansion.
    pub fn lookup_variable(&self, name: &str) -> (r: Option<String>)
        ensures
            r is Some == self.scope().dom().contains(name@),
            r is Some ==> r->0@ == self.scope()[name@],
    {
        match self.vars.get(name) {
            Some(value) => Some(value),
            None => self.env.get(name),
        }
    }
}

/// `$NAME` reads the shell variable of that name; without one, the variable of the
/// environment; and nothing if there is neither.
pub proof fn law_shell_variables_come_first(shell: &Shell, name: Seq<char>)
    ensures
        shell.scope().dom().contains(name) <==> shell.vars@.dom().contains(name)
            || shell.env@.dom().contains(name),
        shell.vars@.dom().contains(name) ==> shell.scope()[name] == shell.vars@[name],
        !shell.vars@.dom().contains(name) && shell.env@.dom().contains(name)
            ==> shell.scope()[name] == shell.env@[name],
{
}

/// The listing of a table holds each of its names once, in order, with its text.
pub proof fn law_listing_holds_every_name(
    rows: Seq<Row>,
    table: Map<Seq<char>, Seq<char>>,
    name: Seq<char>,
)
    requires
        lists_table(rows, table),
    ensures
        table.dom().contains(name) <==> exists|i: int|
            0 <= i < rows.len() && #[trigger] rows[i] == (name, table[name]),
        forall|i: int, j: int|
            0 <= i < j < rows.len() ==> before((#[trigger] rows[i]).0, (#[trigger] rows[j]).0),
{
    if table.dom().contains(name) {
        assert(has_row(rows, name));
        let i = choose|i: int| 0 <= i < rows.len() && (#[trigger] rows[i]).0 == name;
        lemma_row_in_map(rows, i);
        assert(rows[i] == (name, table[name]));
    }
    if exists|i: int| 0 <= i < rows.len() && #[trigger] rows[i] == (name, table[name]) {
        let i = choose|i: int| 0 <= i < rows.len() && #[trigger] rows[i] == (name, table[name]);
        lemma_row_in_map(rows, i);
    }
}

} // verus!
