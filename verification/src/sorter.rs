//! Dependency sorter: orders columns so that every column named by an
//! `@` reference in a rule comes before the column that references it,
//! and fails exactly when the references form a cycle.

use vstd::prelude::*;
use std::collections::VecDeque;
use crate::dataset::Column;
use crate::rules::{word_refs, scan_word_refs};
use vstd::seq_lib::*;
use vstd::set_lib::*;

verus! {

/// Index of the column named `name`: the highest-indexed one, as a map
/// filled in column order resolves a duplicate name.
pub open spec fn name_index(cols: Seq<Column>, name: Seq<char>) -> Option<int>
    decreases cols.len(),
{
    if cols.len() == 0 {
        None
    } else if cols.last().name@ == name {
        Some(cols.len() - 1)
    } else {
        name_index(cols.drop_last(), name)
    }
}

/// A resolved name points at a column carrying it.
pub proof fn lemma_name_index(cols: Seq<Column>, name: Seq<char>)
    ensures
        match name_index(cols, name) {
            Some(d) => 0 <= d < cols.len() && cols[d].name@ == name,
            None => forall|i: int| 0 <= i < cols.len() ==> cols[i].name@ != name,
        },
    decreases cols.len(),
{
    if cols.len() > 0 && cols.last().name@ != name {
        lemma_name_index(cols.drop_last(), name);
        let t = cols.drop_last();
        match name_index(cols, name) {
            Some(d) => {
                assert(cols[d] == t[d]);
            },
            None => {
                assert forall|i: int| 0 <= i < cols.len() implies cols[i].name@ != name by {
                    if i < cols.len() - 1 {
                        assert(cols[i] == t[i]);
                    }
                }
            },
        }
    }
}

/// Column `j` depends on column `i`: some reference in `j`'s rule
/// resolves to the distinct column `i`.
pub open spec fn dep_edge(cols: Seq<Column>, i: int, j: int) -> bool {
    &&& 0 <= i < cols.len()
    &&& 0 <= j < cols.len()
    &&& i != j
    &&& exists|k: int|
        0 <= k < word_refs(cols[j].rules@).len() && name_index(
            cols,
            word_refs(cols[j].rules@)[k],
        ) == Some(i)
}

/// An execution order: a permutation of the column indices in which
/// every dependency comes before its dependent.
pub open spec fn is_topo_order(cols: Seq<Column>, ord: Seq<int>) -> bool {
    &&& ord.len() == cols.len()
    &&& forall|a: int| 0 <= a < ord.len() ==> 0 <= #[trigger] ord[a] < cols.len()
    &&& forall|a: int, b: int| 0 <= a < b < ord.len() ==> ord[a] != ord[b]
    &&& forall|x: int| 0 <= x < cols.len() ==> #[trigger] ord.contains(x)
    &&& forall|a: int, b: int|
        0 <= a < ord.len() && 0 <= b < ord.len() && #[trigger] dep_edge(cols, ord[a], ord[b])
            ==> a < b
}

/// Some execution order exists.
pub open spec fn sortable(cols: Seq<Column>) -> bool {
    exists|ord: Seq<int>| is_topo_order(cols, ord)
}

/// `path` walks dependency edges and returns to its start.
pub open spec fn is_cycle(cols: Seq<Column>, path: Seq<int>) -> bool {
    &&& path.len() >= 2
    &&& path.first() == path.last()
    &&& forall|k: int| 0 <= k < path.len() - 1 ==> #[trigger] dep_edge(cols, path[k], path[k + 1])
}

/// The dependency graph has a cycle.
pub open spec fn has_cycle(cols: Seq<Column>) -> bool {
    exists|path: Seq<int>| is_cycle(cols, path)
}

/// The position of column `x` in the order `ord`.
pub open spec fn pos_in(ord: Seq<int>, x: int) -> int {
    choose|a: int| 0 <= a < ord.len() && ord[a] == x
}

/// In an execution order every column has a well-defined position.
pub proof fn lemma_pos_in(cols: Seq<Column>, ord: Seq<int>, x: int)
    requires
        is_topo_order(cols, ord),
        0 <= x < cols.len(),
    ensures
        0 <= pos_in(ord, x) < ord.len(),
        ord[pos_in(ord, x)] == x,
{
    assert(ord.contains(x));
    let a = choose|a: int| 0 <= a < ord.len() && ord[a] == x;
    assert(ord[a] == x);
}

/// Along a dependency path, positions in an execution order strictly
/// increase.
proof fn lemma_path_pos_increases(cols: Seq<Column>, ord: Seq<int>, path: Seq<int>, k: int)
    requires
        is_topo_order(cols, ord),
        1 <= k < path.len(),
        forall|t: int| 0 <= t < path.len() - 1 ==> #[trigger] dep_edge(cols, path[t], path[t + 1]),
    ensures
        pos_in(ord, path[0]) < pos_in(ord, path[k]),
    decreases k,
{
    let t = k - 1;
    assert(dep_edge(cols, path[t], path[t + 1]));
    assert(dep_edge(cols, path[k - 1], path[k]));
    lemma_pos_in(cols, ord, path[k - 1]);
    lemma_pos_in(cols, ord, path[k]);
    let a = pos_in(ord, path[k - 1]);
    let b = pos_in(ord, path[k]);
    assert(dep_edge(cols, ord[a], ord[b]));
    assert(a < b);
    if k > 1 {
        lemma_path_pos_increases(cols, ord, path, k - 1);
    }
}

/// A column set whose references form a cycle has no execution order:
/// positions would have to increase strictly around the cycle and
/// return to their start.  With the sorter's contract this makes every
/// cyclic input fail.
pub proof fn lemma_cycle_unsortable(cols: Seq<Column>, path: Seq<int>)
    requires
        is_cycle(cols, path),
    ensures
        !sortable(cols),
{
    if sortable(cols) {
        let ord = choose|ord: Seq<int>| is_topo_order(cols, ord);
        assert(dep_edge(cols, path[0], path[1]));
        lemma_path_pos_increases(cols, ord, path, path.len() - 1);
        assert(pos_in(ord, path[0]) < pos_in(ord, path[path.len() - 1]));
        assert(path[0] == path[path.len() - 1]);
    }
}

/// Edges contributed by column `j`'s rule from capture `k` on: one
/// edge per reference that resolves to a distinct column, in reading
/// order.
pub open spec fn col_edges_from(cols: Seq<Column>, j: int, k: int) -> Seq<(int, int)>
    decreases word_refs(cols[j].rules@).len() - k + 1,
{
    if j < 0 || j >= cols.len() || k < 0 || k >= word_refs(cols[j].rules@).len() {
        Seq::empty()
    } else {
        (match name_index(cols, word_refs(cols[j].rules@)[k]) {
            Some(d) => if d != j {
                seq![(d, j)]
            } else {
                Seq::empty()
            },
            None => Seq::empty(),
        }) + col_edges_from(cols, j, k + 1)
    }
}

/// Every dependency edge, scanning the columns in order.
pub open spec fn edge_list_from(cols: Seq<Column>, j: int) -> Seq<(int, int)>
    decreases cols.len() - j + 1,
{
    if j < 0 || j >= cols.len() {
        Seq::empty()
    } else {
        col_edges_from(cols, j, 0) + edge_list_from(cols, j + 1)
    }
}

/// The edge list of the column set.
pub open spec fn edge_list(cols: Seq<Column>) -> Seq<(int, int)> {
    edge_list_from(cols, 0)
}

/// Number of listed edges into `j` whose source is not yet processed.
pub open spec fn count_into(es: Seq<(int, int)>, done: Seq<int>, j: int) -> int
    decreases es.len(),
{
    if es.len() == 0 {
        0
    } else {
        count_into(es.drop_last(), done, j) + if es.last().1 == j && !done.contains(es.last().0) {
            1int
        } else {
            0int
        }
    }
}

/// The initial queue: columns with no dependencies, in input order.
pub open spec fn init_ready(es: Seq<(int, int)>, n: int, x: int) -> Seq<int>
    decreases n - x + 1,
{
    if x < 0 || x >= n {
        Seq::empty()
    } else {
        (if count_into(es, Seq::empty(), x) == 0 {
            seq![x]
        } else {
            Seq::empty()
        }) + init_ready(es, n, x + 1)
    }
}

/// No edge `(u, j)` stands after position `t`.
pub open spec fn last_edge_of(es: Seq<(int, int)>, t: int, u: int, j: int) -> bool {
    forall|t2: int| t < t2 < es.len() ==> #[trigger] es[t2] != (u, j)
}

/// The columns that become ready when `u` is processed: each at the
/// scan position of its final edge from `u`, once no unprocessed
/// source remains.
pub open spec fn newly_ready(es: Seq<(int, int)>, t: int, u: int, done2: Seq<int>) -> Seq<int>
    decreases es.len() - t + 1,
{
    if t < 0 || t >= es.len() {
        Seq::empty()
    } else {
        (if es[t].0 == u && last_edge_of(es, t, u, es[t].1) && count_into(es, done2, es[t].1)
            == 0 {
            seq![es[t].1]
        } else {
            Seq::empty()
        }) + newly_ready(es, t + 1, u, done2)
    }
}

/// Queue and processed list in a consistent state: no repeats, every
/// entry a column index.
pub open spec fn kahn_wf(n: int, queue: Seq<int>, done: Seq<int>) -> bool {
    &&& (done + queue).no_duplicates()
    &&& forall|k: int| 0 <= k < (done + queue).len() ==> 0 <= #[trigger] (done + queue)[k] < n
}

/// Queue-driven processing: pop the front, record it, and enqueue the
/// columns its edges released, until the queue drains.
pub open spec fn kahn_run(es: Seq<(int, int)>, n: int, queue: Seq<int>, done: Seq<int>) -> Seq<
    int,
>
    decreases n - done.len() + 1,
        when kahn_wf(n, queue, done)
        via kahn_run_decreases
{
    if queue.len() == 0 {
        done
    } else {
        let u = queue.first();
        let done2 = done.push(u);
        kahn_run(es, n, queue.drop_first() + newly_ready(es, 0, u, done2), done2)
    }
}

#[via_fn]
proof fn kahn_run_decreases(es: Seq<(int, int)>, n: int, queue: Seq<int>, done: Seq<int>) {
    if queue.len() > 0 {
        assert(0 <= (done + queue)[0] < n);
        lemma_distinct_bounded_len_int(done + queue, n);
    }
}

/// The execution order of a column set: the queue run seeded with the
/// dependency-free columns in input order.
pub open spec fn kahn_order_of(cols: Seq<Column>) -> Seq<int> {
    kahn_run(
        edge_list(cols),
        cols.len() as int,
        init_ready(edge_list(cols), cols.len() as int, 0),
        Seq::empty(),
    )
}

/// A duplicate-free sequence of indices below `n` has at most `n`
/// entries.
pub proof fn lemma_distinct_bounded_len_int(s: Seq<int>, n: int)
    requires
        s.no_duplicates(),
        forall|k: int| 0 <= k < s.len() ==> 0 <= #[trigger] s[k] < n,
        n >= 0,
    ensures
        s.len() <= n,
{
    s.unique_seq_to_set();
    assert forall|x: int| s.to_set().contains(x) implies set_int_range(0, n).contains(x) by {
        let k = choose|k: int| 0 <= k < s.len() && s[k] == x;
    }
    assert(s.to_set().subset_of(set_int_range(0, n)));
    lemma_int_range(0, n);
    lemma_len_subset(s.to_set(), set_int_range(0, n));
}

/// The recorded edges, as column indices.
pub open spec fn pairs_of(ed: Seq<(usize, usize)>) -> Seq<(int, int)> {
    Seq::new(ed.len(), |t: int| (ed[t].0 as int, ed[t].1 as int))
}

/// A processed list, as column indices.
pub open spec fn ints_of(s: Seq<usize>) -> Seq<int> {
    Seq::new(s.len(), |i: int| s[i] as int)
}

/// Membership carries across the index conversion.
proof fn lemma_ints_contains(s: Seq<usize>, x: usize)
    ensures
        ints_of(s).contains(x as int) <==> s.contains(x),
{
    if ints_of(s).contains(x as int) {
        let k = choose|k: int| 0 <= k < ints_of(s).len() && ints_of(s)[k] == x as int;
        assert(s[k] == x);
    }
    if s.contains(x) {
        let k = choose|k: int| 0 <= k < s.len() && s[k] == x;
        assert(ints_of(s)[k] == x as int);
    }
}

/// The two edge counts agree across the index conversion.
proof fn lemma_count_bridge(ed: Seq<(usize, usize)>, done: Seq<usize>, j: int)
    ensures
        count_in(ed, done, j) == count_into(pairs_of(ed), ints_of(done), j),
    decreases ed.len(),
{
    if ed.len() > 0 {
        lemma_count_bridge(ed.drop_last(), done, j);
        assert(pairs_of(ed).drop_last() =~= pairs_of(ed.drop_last()));
        assert(pairs_of(ed).last() == (ed.last().0 as int, ed.last().1 as int));
        lemma_ints_contains(done, ed.last().0);
    }
}

/// A pending count of zero means no such edge remains.
proof fn lemma_cnt_pend_zero(ed: Seq<(usize, usize)>, t: int, c: usize, j: int)
    requires
        0 <= t,
    ensures
        cnt_pend(ed, t, c, j) == 0 <==> (forall|t2: int|
            t <= t2 < ed.len() ==> !(#[trigger] ed[t2].0 == c && ed[t2].1 as int == j)),
    decreases ed.len() - t + 1,
{
    lemma_cnt_pend_nonneg(ed, t + 1, c, j);
    if t < ed.len() {
        lemma_cnt_pend_zero(ed, t + 1, c, j);
    }
}

/// Is `(i, j)` among the recorded edges?
pub open spec fn edge_in(ed: Seq<(usize, usize)>, i: int, j: int) -> bool {
    exists|t: int|
        0 <= t < ed.len() && #[trigger] ed[t].0 as int == i && ed[t].1 as int == j
}

/// Every recorded edge is a dependency.
pub open spec fn edges_sound(cols: Seq<Column>, ed: Seq<(usize, usize)>) -> bool {
    forall|t: int|
        0 <= t < ed.len() ==> dep_edge(cols, #[trigger] ed[t].0 as int, ed[t].1 as int)
}

/// Every dependency is recorded.
pub open spec fn edges_complete(cols: Seq<Column>, ed: Seq<(usize, usize)>) -> bool {
    forall|i: int, j: int| #[trigger] dep_edge(cols, i, j) ==> edge_in(ed, i, j)
}

/// Number of edges into `j` whose source is not yet processed.
pub open spec fn count_in(ed: Seq<(usize, usize)>, done: Seq<usize>, j: int) -> int
    decreases ed.len(),
{
    if ed.len() == 0 {
        0
    } else {
        count_in(ed.drop_last(), done, j) + if ed.last().1 as int == j && !done.contains(
            ed.last().0,
        ) {
            1int
        } else {
            0int
        }
    }
}

/// Number of edges `(c, j)` at or after scan position `t`.
pub open spec fn cnt_pend(ed: Seq<(usize, usize)>, t: int, c: usize, j: int) -> int
    decreases ed.len() - t + 1,
{
    if t < 0 || t >= ed.len() {
        0
    } else {
        (if ed[t].0 == c && ed[t].1 as int == j {
            1int
        } else {
            0int
        }) + cnt_pend(ed, t + 1, c, j)
    }
}

/// Counts are bounded by the number of edges.
proof fn lemma_count_in_bound(ed: Seq<(usize, usize)>, done: Seq<usize>, j: int)
    ensures
        0 <= count_in(ed, done, j) <= ed.len(),
    decreases ed.len(),
{
    if ed.len() > 0 {
        lemma_count_in_bound(ed.drop_last(), done, j);
    }
}

/// Dropping the last edge removes at most its own pending count.
proof fn lemma_cnt_pend_drop(ed: Seq<(usize, usize)>, t: int, c: usize, j: int)
    requires
        0 <= t,
        ed.len() > 0,
    ensures
        cnt_pend(ed, t, c, j) == cnt_pend(ed.drop_last(), t, c, j) + if t <= ed.len() - 1
            && ed.last().0 == c && ed.last().1 as int == j {
            1int
        } else {
            0int
        },
    decreases ed.len() - t + 1,
{
    let dl = ed.drop_last();
    if t >= ed.len() {
        assert(cnt_pend(ed, t, c, j) == 0);
        assert(cnt_pend(dl, t, c, j) == 0);
    } else if t == ed.len() - 1 {
        assert(ed[t] == ed.last());
        assert(cnt_pend(ed, t, c, j) == (if ed[t].0 == c && ed[t].1 as int == j { 1int } else { 0int }) + cnt_pend(ed, t + 1, c, j));
        assert(cnt_pend(ed, t + 1, c, j) == 0);
        assert(cnt_pend(dl, t, c, j) == 0);
    } else {
        assert(ed[t] == dl[t]);
        lemma_cnt_pend_drop(ed, t + 1, c, j);
        assert(cnt_pend(ed, t, c, j) == (if ed[t].0 == c && ed[t].1 as int == j { 1int } else { 0int }) + cnt_pend(ed, t + 1, c, j));
        assert(cnt_pend(dl, t, c, j) == (if dl[t].0 == c && dl[t].1 as int == j { 1int } else { 0int }) + cnt_pend(dl, t + 1, c, j));
    }
}

/// Marking `c` processed removes exactly the pending edges from `c`.
proof fn lemma_count_in_push(ed: Seq<(usize, usize)>, done: Seq<usize>, c: usize, j: int)
    requires
        !done.contains(c),
    ensures
        count_in(ed, done.push(c), j) + cnt_pend(ed, 0, c, j) == count_in(ed, done, j),
    decreases ed.len(),
{
    if ed.len() > 0 {
        lemma_count_in_push(ed.drop_last(), done, c, j);
        lemma_cnt_pend_drop(ed, 0, c, j);
        assert(done.push(c).contains(ed.last().0) <==> (done.contains(ed.last().0)
            || ed.last().0 == c)) by {
            let d = done.push(c);
            if d.contains(ed.last().0) {
                let w = choose|w: int| 0 <= w < d.len() && d[w] == ed.last().0;
                if w < done.len() {
                    assert(done[w] == ed.last().0);
                }
            }
            if done.contains(ed.last().0) {
                let w = choose|w: int| 0 <= w < done.len() && done[w] == ed.last().0;
                assert(d[w] == ed.last().0);
            }
            if ed.last().0 == c {
                assert(d[d.len() - 1] == c);
            }
        }
    }
}

/// A positive count exposes a pending edge.
proof fn lemma_count_in_pos(ed: Seq<(usize, usize)>, done: Seq<usize>, j: int)
    requires
        count_in(ed, done, j) > 0,
    ensures
        exists|t: int|
            0 <= t < ed.len() && #[trigger] ed[t].1 as int == j && !done.contains(ed[t].0),
    decreases ed.len(),
{
    if ed.len() > 0 {
        if ed.last().1 as int == j && !done.contains(ed.last().0) {
            assert(ed[ed.len() - 1].1 as int == j && !done.contains(ed[ed.len() - 1].0));
        } else {
            lemma_count_in_pos(ed.drop_last(), done, j);
            let t = choose|t: int|
                0 <= t < ed.drop_last().len() && #[trigger] ed.drop_last()[t].1 as int == j
                    && !done.contains(ed.drop_last()[t].0);
            assert(ed[t] == ed.drop_last()[t]);
        }
    }
}

/// A zero count means every edge into `j` has a processed source.
proof fn lemma_count_in_zero(ed: Seq<(usize, usize)>, done: Seq<usize>, j: int)
    requires
        count_in(ed, done, j) == 0,
    ensures
        forall|t: int|
            0 <= t < ed.len() && #[trigger] ed[t].1 as int == j ==> done.contains(ed[t].0),
    decreases ed.len(),
{
    if ed.len() > 0 {
        lemma_count_in_bound(ed.drop_last(), done, j);
        lemma_count_in_zero(ed.drop_last(), done, j);
        assert forall|t: int|
            0 <= t < ed.len() && #[trigger] ed[t].1 as int == j implies done.contains(ed[t].0) by {
            if t < ed.len() - 1 {
                assert(ed[t] == ed.drop_last()[t]);
            }
        }
    }
}

/// A duplicate-free sequence of indices below `n` has at most `n`
/// entries.
proof fn lemma_distinct_bounded_len(s: Seq<usize>, n: int)
    requires
        s.no_duplicates(),
        forall|k: int| 0 <= k < s.len() ==> (#[trigger] s[k]) < n,
        n >= 0,
    ensures
        s.len() <= n,
{
    let si = Seq::new(s.len(), |k: int| s[k] as int);
    assert(si.no_duplicates());
    si.unique_seq_to_set();
    assert forall|x: int| si.to_set().contains(x) implies set_int_range(0, n).contains(x) by {
        let k = choose|k: int| 0 <= k < si.len() && si[k] == x;
        assert(s[k] < n);
    }
    assert(si.to_set().subset_of(set_int_range(0, n)));
    lemma_int_range(0, n);
    lemma_len_subset(si.to_set(), set_int_range(0, n));
}

/// Are two character vectors equal?
pub fn chars_eq(a: &Vec<char>, b: &Vec<char>) -> (r: bool)
    ensures
        r == (a@ == b@),
{
    let n: usize = a.len();
    if n != b.len() {
        return false;
    }
    let mut i: usize = 0;
    while i < n
        invariant
            n == a@.len() == b@.len(),
            i <= n,
            forall|k: int| 0 <= k < i ==> a@[k] == b@[k],
        decreases n - i,
    {
        if a[i] != b[i] {
            return false;
        }
        i = i + 1;
    }
    proof {
        assert(a@ =~= b@);
    }
    true
}

/// Resolve a referenced name to its column, scanning from the end so a
/// duplicated name goes to its highest-indexed column.
fn resolve_name(columns: &Vec<Column>, name: &Vec<char>) -> (r: Option<usize>)
    ensures
        match r {
            Some(d) => name_index(columns@, name@) == Some(d as int),
            None => name_index(columns@, name@) is None,
        },
{
    let mut i: usize = columns.len();
    assert(columns@.take(columns@.len() as int) =~= columns@);
    while i > 0
        invariant
            i <= columns@.len(),
            name_index(columns@, name@) == name_index(columns@.take(i as int), name@),
        decreases i,
    {
        proof {
            assert(columns@.take(i as int).last() == columns@[i - 1]);
            assert(columns@.take(i as int).drop_last() =~= columns@.take(i - 1));
        }
        let cname = crate::chars::str_chars(columns[i - 1].name.as_str());
        if chars_eq(&cname, name) {
            return Some(i - 1);
        }
        i = i - 1;
    }
    None
}

/// Two columns with the same content, field by field.
pub open spec fn col_eq(a: Column, b: Column) -> bool {
    &&& a.id == b.id
    &&& a.table_name@ == b.table_name@
    &&& a.dataset_id == b.dataset_id
    &&& a.name@ == b.name@
    &&& a.column_type@ == b.column_type@
    &&& (a.column_type_details is Some <==> b.column_type_details is Some)
    &&& (a.column_type_details is Some ==> a.column_type_details.unwrap()@
        == b.column_type_details.unwrap()@)
    &&& a.rules@ == b.rules@
    &&& a.position == b.position
}

/// Copy a column.
pub fn clone_column(c: &Column) -> (r: Column)
    ensures
        col_eq(r, *c),
{
    let details: Option<String> = match &c.column_type_details {
        Some(d) => Some(d.clone()),
        None => None,
    };
    Column {
        id: c.id,
        table_name: c.table_name.clone(),
        dataset_id: c.dataset_id,
        name: c.name.clone(),
        column_type: c.column_type.clone(),
        column_type_details: details,
        rules: c.rules.clone(),
        position: c.position,
    }
}

/// Whether `regex::Regex::new` accepts a pattern.
pub uninterp spec fn regex_pattern_ok(p: Seq<char>) -> bool;

/// Relies on `regex::Regex::new`: it returns `Ok` exactly for valid
/// pattern syntax, a property of the pattern text alone, and the
/// column-reference pattern is valid syntax.  On failure the message
/// names the pattern, followed by the library's own account.
#[verifier::external_body]
fn compile_pattern(pattern: &str) -> (r: Result<(), String>)
    ensures
        r is Ok <==> regex_pattern_ok(pattern@),
        pattern@ == "@(\\w+)"@ ==> r is Ok,
        r is Err ==> exists|rest: Seq<char>|
            r->Err_0@ == "Failed to compile regex pattern '"@ + pattern@ + "': "@ + rest,
{
    match regex::Regex::new(pattern) {
        Ok(_) => Ok(()),
        Err(e) => Err(format!("Failed to compile regex pattern '{}': {}", pattern, e)),
    }
}

/// Record every dependency edge, scanning the columns' rules in order.
fn build_edges(columns: &Vec<Column>) -> (ed: Vec<(usize, usize)>)
    ensures
        edges_sound(columns@, ed@),
        edges_complete(columns@, ed@),
        pairs_of(ed@) == edge_list(columns@),
{
    let n: usize = columns.len();
    let mut edges: Vec<(usize, usize)> = Vec::new();
    let mut j: usize = 0;
    proof {
        assert(pairs_of(edges@) =~= Seq::<(int, int)>::empty());
        assert(pairs_of(edges@) + edge_list_from(columns@, 0) =~= edge_list(columns@));
    }
    while j < n
        invariant
            n == columns@.len(),
            j <= n,
            pairs_of(edges@) + edge_list_from(columns@, j as int) == edge_list(columns@),
            edges_sound(columns@, edges@),
            forall|jj: int, k: int|
                0 <= jj < j && 0 <= k < word_refs(#[trigger] columns@[jj].rules@).len()
                    ==> (match name_index(columns@, #[trigger] word_refs(columns@[jj].rules@)[k]) {
                    Some(d) => d == jj || edge_in(edges@, d, jj),
                    None => true,
                }),
        decreases n - j,
    {
        let rule_chars = crate::chars::str_chars(columns[j].rules.as_str());
        let refs = scan_word_refs(&rule_chars);
        let m: usize = refs.len();
        let mut k: usize = 0;
        proof {
            assert(edge_list_from(columns@, j as int) == col_edges_from(columns@, j as int, 0)
                + edge_list_from(columns@, j + 1));
            assert(pairs_of(edges@) + (col_edges_from(columns@, j as int, 0) + edge_list_from(
                columns@,
                j + 1,
            )) =~= pairs_of(edges@) + col_edges_from(columns@, j as int, 0) + edge_list_from(
                columns@,
                j + 1,
            ));
        }
        while k < m
            invariant
                n == columns@.len(),
                j < n,
                m == refs@.len(),
                k <= m,
                pairs_of(edges@) + col_edges_from(columns@, j as int, k as int) + edge_list_from(
                    columns@,
                    j + 1,
                ) == edge_list(columns@),
                rule_chars@ == columns@[j as int].rules@,
                refs@.len() == word_refs(columns@[j as int].rules@).len(),
                forall|kk: int| 0 <= kk < refs@.len() ==> refs@[kk]@ == word_refs(
                    columns@[j as int].rules@,
                )[kk],
                edges_sound(columns@, edges@),
                forall|jj: int, kk: int|
                    0 <= jj < j && 0 <= kk < word_refs(#[trigger] columns@[jj].rules@).len()
                        ==> (match name_index(
                        columns@,
                        #[trigger] word_refs(columns@[jj].rules@)[kk],
                    ) {
                        Some(d) => d == jj || edge_in(edges@, d, jj),
                        None => true,
                    }),
                forall|kk: int|
                    0 <= kk < k ==> (match name_index(
                        columns@,
                        #[trigger] word_refs(columns@[j as int].rules@)[kk],
                    ) {
                        Some(d) => d == j as int || edge_in(edges@, d, j as int),
                        None => true,
                    }),
            decreases m - k,
        {
            let ghost pre = edges@;
            let ghost step_edge = (match name_index(columns@, word_refs(columns@[j as int].rules@)[k as int]) {
                Some(d) => if d != j as int { seq![(d, j as int)] } else { Seq::<(int, int)>::empty() },
                None => Seq::<(int, int)>::empty(),
            });
            proof {
                assert(col_edges_from(columns@, j as int, k as int) == step_edge
                    + col_edges_from(columns@, j as int, k + 1));
            }
            match resolve_name(columns, &refs[k]) {
                Some(d) => {
                    if d != j {
                        edges.push((d, j));
                        proof {
                            assert(edges@ == pre.push((d, j)));
                            assert(step_edge =~= seq![(d as int, j as int)]);
                            assert(pairs_of(edges@) =~= pairs_of(pre) + step_edge);
                            assert(pairs_of(pre) + step_edge + col_edges_from(
                                columns@,
                                j as int,
                                k + 1,
                            ) + edge_list_from(columns@, j + 1) =~= pairs_of(pre)
                                + col_edges_from(columns@, j as int, k as int) + edge_list_from(
                                columns@,
                                j + 1,
                            ));
                            assert(edges@[pre.len() as int] == (d, j));
                            assert forall|t: int| 0 <= t < edges@.len() implies dep_edge(
                                columns@,
                                #[trigger] edges@[t].0 as int,
                                edges@[t].1 as int,
                            ) by {
                                if t < pre.len() {
                                    assert(edges@[t] == pre[t]);
                                } else {
                                    lemma_name_index(columns@, refs@[k as int]@);
                                    assert(word_refs(columns@[j as int].rules@)[k as int]
                                        == refs@[k as int]@);
                                    assert(dep_edge(columns@, d as int, j as int));
                                }
                            }
                            assert(edge_in(edges@, d as int, j as int)) by {
                                assert(edges@[pre.len() as int].0 as int == d as int
                                    && edges@[pre.len() as int].1 as int == j as int);
                            }
                            assert forall|i2: int, j2: int| edge_in(pre, i2, j2) implies edge_in(
                                edges@,
                                i2,
                                j2,
                            ) by {
                                let t = choose|t: int|
                                    0 <= t < pre.len() && #[trigger] pre[t].0 as int == i2
                                        && pre[t].1 as int == j2;
                                assert(edges@[t] == pre[t]);
                            }
                        }
                    } else {
                        proof {
                            assert(step_edge =~= Seq::<(int, int)>::empty());
                            assert(pairs_of(edges@) + col_edges_from(columns@, j as int, k + 1)
                                + edge_list_from(columns@, j + 1) =~= pairs_of(edges@)
                                + col_edges_from(columns@, j as int, k as int) + edge_list_from(
                                columns@,
                                j + 1,
                            ));
                        }
                    }
                },
                None => {
                    proof {
                        assert(step_edge =~= Seq::<(int, int)>::empty());
                        assert(pairs_of(edges@) + col_edges_from(columns@, j as int, k + 1)
                            + edge_list_from(columns@, j + 1) =~= pairs_of(edges@)
                            + col_edges_from(columns@, j as int, k as int) + edge_list_from(
                            columns@,
                            j + 1,
                        ));
                    }
                },
            }
            k = k + 1;
        }
        proof {
            assert(col_edges_from(columns@, j as int, m as int) =~= Seq::<(int, int)>::empty());
            assert(pairs_of(edges@) + col_edges_from(columns@, j as int, m as int)
                + edge_list_from(columns@, j + 1) =~= pairs_of(edges@) + edge_list_from(
                columns@,
                j + 1,
            ));
        }
        j = j + 1;
    }
    proof {
        assert(edge_list_from(columns@, n as int) =~= Seq::<(int, int)>::empty());
        assert(pairs_of(edges@) + edge_list_from(columns@, n as int) =~= pairs_of(edges@));
        assert forall|i2: int, j2: int| #[trigger] dep_edge(columns@, i2, j2) implies edge_in(
            edges@,
            i2,
            j2,
        ) by {
            let k = choose|k: int|
                0 <= k < word_refs(columns@[j2].rules@).len() && name_index(
                    columns@,
                    word_refs(columns@[j2].rules@)[k],
                ) == Some(i2);
        }
    }
    edges
}

/// One step of the queue run, unfolded.
proof fn lemma_kahn_run_step(es: Seq<(int, int)>, n: int, queue: Seq<int>, done: Seq<int>)
    requires
        kahn_wf(n, queue, done),
        queue.len() > 0,
        kahn_wf(
            n,
            queue.drop_first() + newly_ready(es, 0, queue.first(), done.push(queue.first())),
            done.push(queue.first()),
        ),
    ensures
        kahn_run(es, n, queue, done) == kahn_run(
            es,
            n,
            queue.drop_first() + newly_ready(es, 0, queue.first(), done.push(queue.first())),
            done.push(queue.first()),
        ),
{
}

/// A drained queue ends the run.
proof fn lemma_kahn_run_done(es: Seq<(int, int)>, n: int, queue: Seq<int>, done: Seq<int>)
    requires
        kahn_wf(n, queue, done),
        queue.len() == 0,
    ensures
        kahn_run(es, n, queue, done) == done,
{
}

/// Concatenation commutes with the index conversion.
proof fn lemma_ints_concat(a: Seq<usize>, b: Seq<usize>)
    ensures
        ints_of(a) + ints_of(b) == ints_of(a + b),
{
    assert(ints_of(a) + ints_of(b) =~= ints_of(a + b));
}

/// Distinctness carries across the index conversion.
proof fn lemma_kahn_wf_bridge(n: int, q: Seq<usize>, d: Seq<usize>)
    requires
        (d + q).no_duplicates(),
        forall|k: int| 0 <= k < (d + q).len() ==> ((#[trigger] (d + q)[k]) as int) < n,
    ensures
        kahn_wf(n, ints_of(q), ints_of(d)),
{
    lemma_ints_concat(d, q);
    let c = ints_of(d) + ints_of(q);
    assert forall|a: int, b: int| 0 <= a < b < c.len() implies c[a] != c[b] by {
        assert((d + q)[a] != (d + q)[b]);
        assert(c[a] == (d + q)[a] as int && c[b] == (d + q)[b] as int);
    }
    assert forall|k: int| 0 <= k < c.len() implies 0 <= #[trigger] c[k] < n by {
        assert(c[k] == (d + q)[k] as int);
    }
}

/// Run the queue-based topological sort over the recorded edges.
/// Returns the processing order when every column is reached, and
/// nothing when the remaining columns all wait on one another.
#[verifier::rlimit(100)]
fn kahn_order(columns: &Vec<Column>, edges: &Vec<(usize, usize)>) -> (r: Option<Vec<usize>>)
    requires
        edges_sound(columns@, edges@),
        edges_complete(columns@, edges@),
        pairs_of(edges@) == edge_list(columns@),
    ensures
        match r {
            Some(done) => {
                &&& done@.len() == columns@.len()
                &&& is_topo_order(columns@, Seq::new(done@.len() as nat, |a: int| done@[a] as int))
                &&& ints_of(done@) == kahn_order_of(columns@)
            },
            None => !sortable(columns@),
        },
{
    let n: usize = columns.len();
    let en: usize = edges.len();
    let ghost ed = edges@;
    let ghost cols = columns@;
    let ghost es = pairs_of(ed);
    // every edge endpoint is a column index
    proof {
        assert forall|t: int| 0 <= t < ed.len() implies (#[trigger] ed[t].0) < n && ed[t].1
            < n by {
            assert(dep_edge(cols, ed[t].0 as int, ed[t].1 as int));
        }
    }
    // in-degrees: edges into each column
    let mut in_degree: Vec<usize> = Vec::new();
    let mut x: usize = 0;
    while x < n
        invariant
            x <= n,
            in_degree@.len() == x as int,
            forall|k: int| 0 <= k < x ==> in_degree@[k] == 0usize,
        decreases n - x,
    {
        in_degree.push(0);
        x = x + 1;
    }
    let mut t: usize = 0;
    proof {
        assert(ed.take(0) =~= Seq::<(usize, usize)>::empty());
        assert forall|jj: int| 0 <= jj < n implies in_degree@[jj] as int == count_in(
            ed.take(0),
            Seq::<usize>::empty(),
            jj,
        ) by {}
    }
    while t < en
        invariant
            n == cols.len(),
            en == ed.len(),
            t <= en,
            ed == edges@,
            in_degree@.len() == n as int,
            forall|tt: int| 0 <= tt < ed.len() ==> (#[trigger] ed[tt].0) < n && ed[tt].1 < n,
            forall|jj: int|
                0 <= jj < n ==> #[trigger] in_degree@[jj] as int == count_in(
                    ed.take(t as int),
                    Seq::<usize>::empty(),
                    jj,
                ),
        decreases en - t,
    {
        let dep: usize = edges[t].1;
        proof {
            assert(ed[t as int].0 < n && ed[t as int].1 < n);
            lemma_count_in_bound(ed.take(t as int), Seq::<usize>::empty(), dep as int);
            assert(in_degree@[dep as int] as int == count_in(
                ed.take(t as int),
                Seq::<usize>::empty(),
                dep as int,
            ));
            assert(in_degree@[dep as int] as int <= t as int);
            assert(ed.take(t + 1).drop_last() =~= ed.take(t as int));
            assert(ed.take(t + 1).last() == ed[t as int]);
        }
        let cur_deg: usize = in_degree[dep];
        in_degree.set(dep, cur_deg + 1);
        proof {
            assert forall|jj: int| 0 <= jj < n implies #[trigger] in_degree@[jj] as int == count_in(
                ed.take(t + 1),
                Seq::<usize>::empty(),
                jj,
            ) by {}
        }
        t = t + 1;
    }
    proof {
        assert(ed.take(en as int) =~= ed);
    }
    // queue starts with the columns that depend on nothing
    let mut queue: VecDeque<usize> = VecDeque::new();
    let mut x: usize = 0;
    proof {
        assert(ints_of(queue@) =~= Seq::<int>::empty());
        assert(ints_of(queue@) + init_ready(es, n as int, 0) =~= init_ready(es, n as int, 0));
    }
    while x < n
        invariant
            n == cols.len(),
            x <= n,
            ed == edges@,
            es == pairs_of(ed),
            ints_of(queue@) + init_ready(es, n as int, x as int) == init_ready(es, n as int, 0),
            in_degree@.len() == n as int,
            forall|jj: int|
                0 <= jj < n ==> #[trigger] in_degree@[jj] as int == count_in(
                    ed,
                    Seq::<usize>::empty(),
                    jj,
                ),
            queue@.no_duplicates(),
            forall|k: int| 0 <= k < queue@.len() ==> (#[trigger] queue@[k]) < x,
            forall|y: usize|
                y < x ==> (queue@.contains(y) <==> count_in(ed, Seq::<usize>::empty(), y as int)
                    == 0),
        decreases n - x,
    {
        let ghost pre_q = queue@;
        proof {
            lemma_count_bridge(ed, Seq::<usize>::empty(), x as int);
            assert(ints_of(Seq::<usize>::empty()) =~= Seq::<int>::empty());
            assert(count_in(ed, Seq::<usize>::empty(), x as int) == count_into(
                es,
                Seq::<int>::empty(),
                x as int,
            ));
        }
        if in_degree[x] == 0 {
            queue.push_back(x);
            proof {
                assert(init_ready(es, n as int, x as int) == seq![x as int] + init_ready(
                    es,
                    n as int,
                    x + 1,
                ));
                assert(ints_of(queue@) =~= ints_of(pre_q) + seq![x as int]);
                assert(ints_of(pre_q) + seq![x as int] + init_ready(es, n as int, x + 1)
                    =~= ints_of(pre_q) + (seq![x as int] + init_ready(es, n as int, x + 1)));
                assert forall|y: usize| y < x + 1 implies (queue@.contains(y) <==> count_in(
                    ed,
                    Seq::<usize>::empty(),
                    y as int,
                ) == 0) by {
                    if queue@.contains(y) {
                        let k = choose|k: int| 0 <= k < queue@.len() && queue@[k] == y;
                        if k < pre_q.len() {
                            assert(pre_q[k] == y);
                        }
                    }
                    if pre_q.contains(y) {
                        let k = choose|k: int| 0 <= k < pre_q.len() && pre_q[k] == y;
                        assert(queue@[k] == y);
                    }
                    if y == x {
                        assert(queue@[pre_q.len() as int] == y);
                    }
                }
            }
        } else {
            proof {
                assert(init_ready(es, n as int, x as int) == init_ready(es, n as int, x + 1));
                assert forall|y: usize| y < x + 1 implies (queue@.contains(y) <==> count_in(
                    ed,
                    Seq::<usize>::empty(),
                    y as int,
                ) == 0) by {}
            }
        }
        x = x + 1;
    }
    // process the queue
    let mut sorted_idx: Vec<usize> = Vec::new();
    let ghost korder = kahn_order_of(cols);
    proof {
        assert(init_ready(es, n as int, n as int) == Seq::<int>::empty());
        assert(ints_of(queue@) + Seq::<int>::empty() =~= ints_of(queue@));
        assert(ints_of(queue@) == init_ready(es, n as int, 0));
        assert(ints_of(sorted_idx@) =~= Seq::<int>::empty());
        assert(es == edge_list(cols) && n as int == cols.len());
        lemma_kahn_wf_bridge(n as int, queue@, sorted_idx@);
        assert(kahn_run(es, n as int, ints_of(queue@), ints_of(sorted_idx@)) == korder);
        assert(sorted_idx@ + queue@ =~= queue@);
        assert forall|y: usize| y < n implies ((sorted_idx@ + queue@).contains(y) <==> count_in(
            ed,
            sorted_idx@,
            y as int,
        ) == 0) by {
            assert(count_in(ed, sorted_idx@, y as int) == count_in(
                ed,
                Seq::<usize>::empty(),
                y as int,
            )) by {
                lemma_count_in_same(ed, sorted_idx@, Seq::<usize>::empty(), y as int);
            }
        }
        lemma_distinct_bounded_len(sorted_idx@ + queue@, n as int);
    }
    loop
        invariant_except_break
            n == cols.len(),
            en == ed.len(),
            ed == edges@,
            es == pairs_of(ed),
            korder == kahn_order_of(cols),
            kahn_wf(n as int, ints_of(queue@), ints_of(sorted_idx@)),
            kahn_run(es, n as int, ints_of(queue@), ints_of(sorted_idx@)) == korder,
            edges_sound(cols, ed),
            edges_complete(cols, ed),
            in_degree@.len() == n as int,
            forall|tt: int| 0 <= tt < ed.len() ==> (#[trigger] ed[tt].0) < n && ed[tt].1 < n,
            (sorted_idx@ + queue@).no_duplicates(),
            forall|k: int|
                0 <= k < (sorted_idx@ + queue@).len() ==> (#[trigger] (sorted_idx@ + queue@)[k])
                    < n,
            sorted_idx@.len() + queue@.len() <= n,
            forall|jj: int|
                0 <= jj < n ==> #[trigger] in_degree@[jj] as int == count_in(
                    ed,
                    sorted_idx@,
                    jj,
                ),
            forall|y: usize|
                y < n ==> ((sorted_idx@ + queue@).contains(y) <==> count_in(
                    ed,
                    sorted_idx@,
                    y as int,
                ) == 0),
            forall|b: int, tt: int|
                0 <= b < sorted_idx@.len() && 0 <= tt < ed.len() && (#[trigger] ed[tt].1)
                    == (#[trigger] sorted_idx@[b]) ==> exists|a: int|
                    0 <= a < b && sorted_idx@[a] == ed[tt].0,
        ensures
            queue@.len() == 0,
            n == cols.len(),
            ed == edges@,
            ints_of(sorted_idx@) == kahn_order_of(cols),
            (sorted_idx@).no_duplicates(),
            forall|k: int| 0 <= k < sorted_idx@.len() ==> (#[trigger] sorted_idx@[k]) < n,
            sorted_idx@.len() <= n,
            forall|y: usize|
                y < n ==> (sorted_idx@.contains(y) <==> count_in(ed, sorted_idx@, y as int) == 0),
            forall|b: int, tt: int|
                0 <= b < sorted_idx@.len() && 0 <= tt < ed.len() && (#[trigger] ed[tt].1)
                    == (#[trigger] sorted_idx@[b]) ==> exists|a: int|
                    0 <= a < b && sorted_idx@[a] == ed[tt].0,
        decreases n - sorted_idx@.len(),
    {
        let ghost pre_done = sorted_idx@;
        let ghost pre_q = queue@;
        let cur: usize = match queue.pop_front() {
            Some(c) => c,
            None => {
                proof {
                    assert(pre_done + pre_q =~= pre_done);
                    assert(ints_of(pre_q).len() == 0);
                    assert(kahn_run(es, n as int, ints_of(pre_q), ints_of(pre_done))
                        == ints_of(pre_done));
                    assert forall|y: usize| y < n implies (sorted_idx@.contains(y) <==> count_in(
                        ed,
                        sorted_idx@,
                        y as int,
                    ) == 0) by {
                        assert((pre_done + pre_q).contains(y) <==> pre_done.contains(y));
                    }
                }
                break;
            },
        };
        proof {
            assert(cur == (pre_done + pre_q)[pre_done.len() as int]);
            assert((pre_done + pre_q).contains(cur));
            assert(count_in(ed, pre_done, cur as int) == 0);
            assert(!pre_done.contains(cur)) by {
                if pre_done.contains(cur) {
                    let a = choose|a: int| 0 <= a < pre_done.len() && pre_done[a] == cur;
                    assert((pre_done + pre_q)[a] == cur);
                }
            }
        }
        sorted_idx.push(cur);
        let ghost done2 = sorted_idx@;
        let ghost d2i = ints_of(pre_done).push(cur as int);
        let ghost qrest = ints_of(pre_q).drop_first();
        proof {
            assert(done2 =~= pre_done.push(cur));
            assert(done2 + queue@ =~= pre_done + pre_q);
            // snapshot of the popped state for the queue-run step below
            assert(ints_of(pre_q)[0] == cur as int);
            assert(d2i =~= ints_of(done2));
            assert(qrest =~= ints_of(queue@));
            assert(kahn_wf(n as int, ints_of(pre_q), ints_of(pre_done)));
            assert(ints_of(pre_q).first() == cur as int);
            assert(ints_of(pre_q).drop_first() == qrest);
            assert(ints_of(pre_done).push(ints_of(pre_q).first()) == d2i);
            // every edge into the newly processed column is satisfied
            lemma_count_in_zero(ed, pre_done, cur as int);
            assert forall|b: int, tt: int|
                0 <= b < done2.len() && 0 <= tt < ed.len() && (#[trigger] ed[tt].1)
                    == (#[trigger] done2[b]) implies exists|a: int|
                0 <= a < b && done2[a] == ed[tt].0 by {
                if b < pre_done.len() {
                    assert(ed[tt].1 == pre_done[b]);
                    let a = choose|a: int| 0 <= a < b && pre_done[a] == ed[tt].0;
                    assert(done2[a] == ed[tt].0);
                } else {
                    assert(done2[b] == cur);
                    assert(pre_done.contains(ed[tt].0));
                    let a = choose|a: int| 0 <= a < pre_done.len() && pre_done[a] == ed[tt].0;
                    assert(done2[a] == ed[tt].0);
                }
            }
            // switch the counters to the new processed set
            assert forall|jj: int| 0 <= jj < n implies #[trigger] in_degree@[jj] as int == count_in(
                ed,
                done2,
                jj,
            ) + cnt_pend(ed, 0, cur, jj) by {
                lemma_count_in_push(ed, pre_done, cur, jj);
            }
            assert forall|y: usize| y < n implies ((done2 + queue@).contains(y) <==> count_in(
                ed,
                done2,
                y as int,
            ) + cnt_pend(ed, 0, cur, y as int) == 0) by {
                lemma_count_in_push(ed, pre_done, cur, y as int);
                assert((done2 + queue@).contains(y) <==> (pre_done + pre_q).contains(y));
            }
        }
        let mut t: usize = 0;
        let ghost mut pushed: Seq<int> = Seq::empty();
        proof {
            assert(pushed + newly_ready(es, 0, cur as int, d2i) =~= newly_ready(
                es,
                0,
                cur as int,
                d2i,
            ));
            assert(qrest + pushed =~= qrest);
        }
        while t < en
            invariant
                n == cols.len(),
                en == ed.len(),
                ed == edges@,
                es == pairs_of(ed),
                d2i == ints_of(done2),
                newly_ready(es, 0, cur as int, d2i) == pushed + newly_ready(
                    es,
                    t as int,
                    cur as int,
                    d2i,
                ),
                ints_of(queue@) == qrest + pushed,
                edges_sound(cols, ed),
                t <= en,
                in_degree@.len() == n as int,
                forall|tt: int| 0 <= tt < ed.len() ==> (#[trigger] ed[tt].0) < n && ed[tt].1 < n,
                done2 == sorted_idx@,
                done2.len() >= 1,
                done2[done2.len() - 1] == cur,
                (done2 + queue@).no_duplicates(),
                forall|k: int|
                    0 <= k < (done2 + queue@).len() ==> (#[trigger] (done2 + queue@)[k]) < n,
                done2.len() + queue@.len() <= n,
                forall|jj: int|
                    0 <= jj < n ==> #[trigger] in_degree@[jj] as int == count_in(ed, done2, jj)
                        + cnt_pend(ed, t as int, cur, jj),
                forall|y: usize|
                    y < n ==> ((done2 + queue@).contains(y) <==> count_in(ed, done2, y as int)
                        + cnt_pend(ed, t as int, cur, y as int) == 0),
                forall|b: int, tt: int|
                    0 <= b < done2.len() && 0 <= tt < ed.len() && (#[trigger] ed[tt].1)
                        == (#[trigger] done2[b]) ==> exists|a: int|
                        0 <= a < b && done2[a] == ed[tt].0,
            decreases en - t,
        {
            let ghost mid_q = queue@;
            if edges[t].0 == cur {
                let dep: usize = edges[t].1;
                proof {
                    lemma_count_in_bound(ed, done2, dep as int);
                    assert(cnt_pend(ed, t as int, cur, dep as int) >= 1 + cnt_pend(
                        ed,
                        t + 1,
                        cur,
                        dep as int,
                    ) - 1) by {}
                    lemma_cnt_pend_nonneg(ed, t + 1, cur, dep as int);
                    assert(in_degree@[dep as int] >= 1);
                }
                let cur_deg: usize = in_degree[dep];
                in_degree.set(dep, cur_deg - 1);
                if cur_deg - 1 == 0 {
                    proof {
                        // the dependent joins the queue exactly once
                        assert(count_in(ed, done2, dep as int) + cnt_pend(
                            ed,
                            t + 1,
                            cur,
                            dep as int,
                        ) == 0);
                        assert(!(done2 + mid_q).contains(dep));
                        lemma_distinct_bounded_len((done2 + mid_q).push(dep), n as int);
                    }
                    queue.push_back(dep);
                    proof {
                        // this edge is the dependent's last from the popped
                        // column, and no unprocessed source remains
                        assert(es[t as int] == (cur as int, dep as int));
                        lemma_cnt_pend_zero(ed, t + 1, cur, dep as int);
                        assert(last_edge_of(es, t as int, cur as int, dep as int)) by {
                            assert forall|t2: int| t < t2 < es.len() implies #[trigger] es[t2]
                                != (cur as int, dep as int) by {
                                assert(!(ed[t2].0 == cur && ed[t2].1 as int == dep as int));
                                assert(es[t2] == (ed[t2].0 as int, ed[t2].1 as int));
                            }
                        }
                        lemma_count_bridge(ed, done2, dep as int);
                        assert(count_into(es, d2i, dep as int) == 0);
                        assert(newly_ready(es, t as int, cur as int, d2i) == seq![dep as int]
                            + newly_ready(es, t + 1, cur as int, d2i));
                        let ghost pre_pushed = pushed;
                        pushed = pushed + seq![dep as int];
                        assert(ints_of(queue@) =~= ints_of(mid_q) + seq![dep as int]);
                        assert(qrest + pre_pushed + seq![dep as int] =~= qrest + pushed);
                        assert(pre_pushed + (seq![dep as int] + newly_ready(
                            es,
                            t + 1,
                            cur as int,
                            d2i,
                        )) =~= pushed + newly_ready(es, t + 1, cur as int, d2i));
                        assert(done2 + queue@ =~= (done2 + mid_q).push(dep));
                        assert forall|y: usize| y < n implies ((done2 + queue@).contains(y)
                            <==> count_in(ed, done2, y as int) + cnt_pend(
                            ed,
                            t + 1,
                            cur,
                            y as int,
                        ) == 0) by {
                            let comb = (done2 + mid_q).push(dep);
                            if y == dep {
                                assert(comb[comb.len() - 1] == dep);
                            } else {
                                assert(comb.contains(y) <==> (done2 + mid_q).contains(y)) by {
                                    if comb.contains(y) {
                                        let k = choose|k: int|
                                            0 <= k < comb.len() && comb[k] == y;
                                        if k < comb.len() - 1 {
                                            assert((done2 + mid_q)[k] == y);
                                        }
                                    }
                                    if (done2 + mid_q).contains(y) {
                                        let k = choose|k: int|
                                            0 <= k < (done2 + mid_q).len() && (done2 + mid_q)[k]
                                                == y;
                                        assert(comb[k] == y);
                                    }
                                }
                            }
                        }
                    }
                } else {
                    proof {
                        // the dependent still waits: either on another source
                        // or on a later edge from the popped column
                        lemma_cnt_pend_nonneg(ed, t + 1, cur, dep as int);
                        lemma_count_in_bound(ed, done2, dep as int);
                        lemma_count_bridge(ed, done2, dep as int);
                        if count_in(ed, done2, dep as int) == 0 {
                            lemma_cnt_pend_zero(ed, t + 1, cur, dep as int);
                            let t2 = choose|t2: int|
                                t + 1 <= t2 < ed.len() && (#[trigger] ed[t2].0 == cur
                                    && ed[t2].1 as int == dep as int);
                            assert(es[t2] == (cur as int, dep as int));
                            assert(!last_edge_of(es, t as int, cur as int, dep as int));
                        }
                        assert(newly_ready(es, t as int, cur as int, d2i) == newly_ready(
                            es,
                            t + 1,
                            cur as int,
                            d2i,
                        ));
                        assert forall|y: usize| y < n implies ((done2 + queue@).contains(y)
                            <==> count_in(ed, done2, y as int) + cnt_pend(
                            ed,
                            t + 1,
                            cur,
                            y as int,
                        ) == 0) by {
                            lemma_cnt_pend_nonneg(ed, t + 1, cur, y as int);
                            lemma_count_in_bound(ed, done2, y as int);
                        }
                    }
                }
            } else {
                proof {
                    assert(es[t as int].0 == ed[t as int].0 as int);
                    assert(es[t as int].0 != cur as int);
                    assert(newly_ready(es, t as int, cur as int, d2i) == newly_ready(
                        es,
                        t + 1,
                        cur as int,
                        d2i,
                    ));
                    assert forall|jj: int| 0 <= jj < n implies #[trigger] in_degree@[jj] as int
                        == count_in(ed, done2, jj) + cnt_pend(ed, t + 1, cur, jj) by {}
                }
            }
            t = t + 1;
        }
        proof {
            assert forall|jj: int| 0 <= jj < n implies #[trigger] in_degree@[jj] as int
                == count_in(ed, done2, jj) by {
                assert(cnt_pend(ed, en as int, cur, jj) == 0);
            }
            // the pushes were exactly the released columns, in scan order
            assert(newly_ready(es, en as int, cur as int, d2i) == Seq::<int>::empty());
            assert(pushed + Seq::<int>::empty() =~= pushed);
            assert(newly_ready(es, 0, cur as int, d2i) == pushed);
            assert(ints_of(queue@) == qrest + newly_ready(es, 0, cur as int, d2i));
            lemma_kahn_wf_bridge(n as int, queue@, done2);
            lemma_kahn_run_step(es, n as int, ints_of(pre_q), ints_of(pre_done));
            assert(kahn_run(es, n as int, ints_of(queue@), ints_of(done2)) == korder);
        }
    }
    // with the queue drained, either every column was processed or the
    // rest form at least one cycle
    if sorted_idx.len() == n {
        proof {
            let done = sorted_idx@;
            let ord = Seq::new(done.len() as nat, |a: int| done[a] as int);
            assert(ord =~= ints_of(done));
            assert forall|a: int, b: int| 0 <= a < b < ord.len() implies ord[a] != ord[b] by {
                if done[a] == done[b] {
                    assert(!done.no_duplicates());
                }
            }
            assert forall|xx: int| 0 <= xx < cols.len() implies #[trigger] ord.contains(xx) by {
                lemma_distinct_bounded_full(done, n as int, xx as usize);
                let k = choose|k: int| 0 <= k < done.len() && done[k] == xx as usize;
                assert(ord[k] == xx);
            }
            assert forall|a: int, b: int|
                0 <= a < ord.len() && 0 <= b < ord.len() && #[trigger] dep_edge(
                    cols,
                    ord[a],
                    ord[b],
                ) implies a < b by {
                assert(edge_in(ed, ord[a], ord[b]));
                let tt = choose|tt: int|
                    0 <= tt < ed.len() && #[trigger] ed[tt].0 as int == ord[a] && ed[tt].1 as int
                        == ord[b];
                assert(ed[tt].1 == done[b]);
                let a2 = choose|a2: int| 0 <= a2 < b && done[a2] == ed[tt].0;
                assert(ord[a2] == ord[a]);
                if a2 != a {
                    assert(!(0 <= a2 < a < ord.len() && ord[a2] != ord[a]) || true);
                    if a2 < a {
                        assert(ord[a2] != ord[a]);
                    } else {
                        assert(ord[a] != ord[a2]);
                    }
                }
                assert(a2 == a);
            }
            assert(is_topo_order(cols, ord));
        }
        Some(sorted_idx)
    } else {
        proof {
            let done = sorted_idx@;
            if sortable(cols) {
                let ord = choose|ord: Seq<int>| is_topo_order(cols, ord);
                // some column is unprocessed
                assert(exists|w: usize| w < n && !done.contains(w)) by {
                    if forall|w: usize| w < n ==> #[trigger] done.contains(w) {
                        broadcast use vstd::seq_lib::seq_to_set_is_finite;

                        let si = Seq::new(done.len() as nat, |k: int| done[k] as int);
                        assert(si.no_duplicates()) by {
                            assert forall|a: int, b: int|
                                0 <= a < b < si.len() implies si[a] != si[b] by {
                                assert(done[a] != done[b]);
                            }
                        }
                        si.unique_seq_to_set();
                        lemma_int_range(0, n as int);
                        assert forall|y: int|
                            set_int_range(0, n as int).contains(y) implies si.to_set().contains(
                            y,
                        ) by {
                            assert(done.contains(y as usize));
                            let k = choose|k: int| 0 <= k < done.len() && done[k] == y as usize;
                            assert(si[k] == y);
                        }
                        lemma_len_subset(set_int_range(0, n as int), si.to_set());
                        assert(n as int <= si.to_set().len());
                        assert(si.to_set().len() == done.len());
                    }
                }
                let w = choose|w: usize| w < n && !done.contains(w);
                let m = lemma_min_unprocessed(cols, ord, done, w as int);
                // the minimal unprocessed column still waits on a dependency
                assert(!(done + queue@).contains(m as usize)) by {
                    assert(done + queue@ =~= done);
                }
                assert(count_in(ed, done, m) != 0);
                lemma_count_in_bound(ed, done, m);
                lemma_count_in_pos(ed, done, m);
                let tt = choose|tt: int|
                    0 <= tt < ed.len() && #[trigger] ed[tt].1 as int == m && !done.contains(
                        ed[tt].0,
                    );
                let d = ed[tt].0 as int;
                assert(dep_edge(cols, d, m));
                lemma_pos_in(cols, ord, d);
                lemma_pos_in(cols, ord, m);
                assert(dep_edge(cols, ord[pos_in(ord, d)], ord[pos_in(ord, m)]));
                assert(pos_in(ord, d) < pos_in(ord, m));
                assert(pos_in(ord, m) <= pos_in(ord, d));
            }
        }
        None
    }
}

/// Order the columns so that every dependency comes before its
/// dependents: the queue run seeded with the dependency-free columns
/// in input order, which fixes the output uniquely.  The pattern
/// argument is validated as regex syntax; the references themselves
/// follow the `@name` grammar.  Fails exactly when the pattern is
/// invalid or the references of a non-empty column set form a cycle.
pub fn sort_columns_by_dependency(columns: &Vec<Column>, pattern: &str) -> (r: Result<
    Vec<Column>,
    String,
>)
    ensures
        (match r {
            Ok(sorted) => {
                &&& is_topo_order(columns@, kahn_order_of(columns@))
                &&& sorted@.len() == kahn_order_of(columns@).len()
                &&& forall|a: int|
                    0 <= a < sorted@.len() ==> col_eq(
                        #[trigger] sorted@[a],
                        columns@[kahn_order_of(columns@)[a]],
                    )
            },
            Err(_) => true,
        }),
        r is Ok <==> (columns@.len() == 0 || (regex_pattern_ok(pattern@) && sortable(columns@))),
        (r is Err && regex_pattern_ok(pattern@)) ==> r->Err_0@
            == "Circular dependency detected in column rules"@,
        (r is Err && !regex_pattern_ok(pattern@)) ==> exists|rest: Seq<char>|
            r->Err_0@ == "Failed to compile regex pattern '"@ + pattern@ + "': "@ + rest,
        pattern@ == "@(\\w+)"@ ==> regex_pattern_ok(pattern@) || columns@.len() == 0,
{
    let n: usize = columns.len();
    if n == 0 {
        proof {
            assert(edge_list_from(columns@, 0) =~= Seq::<(int, int)>::empty());
            assert(init_ready(edge_list(columns@), 0, 0) =~= Seq::<int>::empty());
            assert(kahn_wf(0, Seq::<int>::empty(), Seq::<int>::empty())) by {
                assert(Seq::<int>::empty() + Seq::<int>::empty() =~= Seq::<int>::empty());
            }
            lemma_kahn_run_done(
                edge_list(columns@),
                0,
                Seq::<int>::empty(),
                Seq::<int>::empty(),
            );
            assert(kahn_order_of(columns@) == Seq::<int>::empty());
            assert(is_topo_order(columns@, kahn_order_of(columns@)));
        }
        return Ok(Vec::new());
    }
    if let Err(msg) = compile_pattern(pattern) {
        return Err(msg);
    }
    let edges = build_edges(columns);
    match kahn_order(columns, &edges) {
        Some(order) => {
            let ghost ord = Seq::new(order@.len() as nat, |a: int| order@[a] as int);
            proof {
                assert(ord =~= ints_of(order@));
                assert(ord == kahn_order_of(columns@));
            }
            let mut out: Vec<Column> = Vec::new();
            let mut a: usize = 0;
            while a < n
                invariant
                    n == columns@.len(),
                    a <= n,
                    order@.len() == n as int,
                    ord == Seq::new(order@.len() as nat, |a: int| order@[a] as int),
                    is_topo_order(columns@, ord),
                    out@.len() == a as int,
                    forall|k: int| 0 <= k < a ==> col_eq(#[trigger] out@[k], columns@[ord[k]]),
                decreases n - a,
            {
                let idx: usize = order[a];
                assert(0 <= ord[a as int] < n);
                out.push(clone_column(&columns[idx]));
                a = a + 1;
            }
            Ok(out)
        },
        None => {
            proof {
                reveal_strlit("Circular dependency detected in column rules");
            }
            Err(String::from_str("Circular dependency detected in column rules"))
        },
    }
}

/// The processed set only matters through membership of edge sources;
/// two sets agreeing there give the same counts.
proof fn lemma_count_in_same(ed: Seq<(usize, usize)>, d1: Seq<usize>, d2: Seq<usize>, j: int)
    requires
        forall|t: int|
            0 <= t < ed.len() ==> (d1.contains(#[trigger] ed[t].0) <==> d2.contains(ed[t].0)),
    ensures
        count_in(ed, d1, j) == count_in(ed, d2, j),
    decreases ed.len(),
{
    if ed.len() > 0 {
        assert forall|t: int|
            0 <= t < ed.drop_last().len() implies (d1.contains(#[trigger] ed.drop_last()[t].0)
            <==> d2.contains(ed.drop_last()[t].0)) by {
            assert(ed.drop_last()[t] == ed[t]);
        }
        lemma_count_in_same(ed.drop_last(), d1, d2, j);
        assert(ed.last() == ed[ed.len() - 1]);
    }
}

/// Pending counts are non-negative.
proof fn lemma_cnt_pend_nonneg(ed: Seq<(usize, usize)>, t: int, c: usize, j: int)
    ensures
        cnt_pend(ed, t, c, j) >= 0,
    decreases ed.len() - t + 1,
{
    if 0 <= t && t < ed.len() {
        lemma_cnt_pend_nonneg(ed, t + 1, c, j);
    }
}

/// Among the unprocessed columns there is one whose position in a given
/// execution order is least.
proof fn lemma_min_unprocessed(cols: Seq<Column>, ord: Seq<int>, done: Seq<usize>, w: int) -> (m:
    int)
    requires
        is_topo_order(cols, ord),
        0 <= w < cols.len(),
        !done.contains(w as usize),
    ensures
        0 <= m < cols.len(),
        !done.contains(m as usize),
        forall|y: int|
            0 <= y < cols.len() && !done.contains(y as usize) ==> pos_in(ord, m) <= pos_in(
                ord,
                y,
            ),
    decreases pos_in(ord, w),
{
    lemma_pos_in(cols, ord, w);
    if exists|y: int|
        0 <= y < cols.len() && !done.contains(y as usize) && pos_in(ord, y) < pos_in(ord, w) {
        let y = choose|y: int|
            0 <= y < cols.len() && !done.contains(y as usize) && pos_in(ord, y) < pos_in(ord, w);
        lemma_pos_in(cols, ord, y);
        let m = lemma_min_unprocessed(cols, ord, done, y);
        m
    } else {
        w
    }
}

/// A duplicate-free sequence of `n` indices below `n` contains every
/// index below `n`.
pub proof fn lemma_distinct_bounded_full(s: Seq<usize>, n: int, x: usize)
    requires
        s.no_duplicates(),
        forall|k: int| 0 <= k < s.len() ==> (#[trigger] s[k]) < n,
        s.len() == n,
        (x as int) < n,
    ensures
        s.contains(x),
{
    if !s.contains(x) {
        let si = Seq::new(s.len(), |k: int| s[k] as int);
        assert(si.no_duplicates());
        si.unique_seq_to_set();
        assert forall|y: int| si.to_set().contains(y) implies set_int_range(0, n).contains(y) by {
            let k = choose|k: int| 0 <= k < si.len() && si[k] == y;
            assert(s[k] < n);
        }
        assert(si.to_set().subset_of(set_int_range(0, n)));
        lemma_int_range(0, n);
        assert(!si.to_set().contains(x as int)) by {
            if si.to_set().contains(x as int) {
                let k = choose|k: int| 0 <= k < si.len() && si[k] == x as int;
                assert(s[k] == x);
                assert(s.contains(x));
            }
        }
        si.to_set().lemma_subset_not_in_lt(set_int_range(0, n), x as int);
        assert(si.to_set().len() < n);
    }
}

} // verus!
