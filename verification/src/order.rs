//! The order of paths, and the order of report rows.

use vstd::prelude::*;

verus! {

/// What is read of the path of a file: how it is shown, and what it is ordered by.
#[derive(Clone, Debug)]
pub struct FilePath {
    /// The path as text.
    pub location: String,
    /// The components of the path, from the root down. Paths are ordered, and told apart, by
    /// their components.
    pub components: Vec<Vec<u8>>,
}

impl FilePath {
    pub open spec fn key(self) -> Seq<Seq<u8>> {
        self.components@.map_values(|component: Vec<u8>| component@)
    }
}

/// The order of byte strings: by the first byte that differs, and a prefix first.
pub open spec fn bytes_before(a: Seq<u8>, b: Seq<u8>) -> bool
    decreases a.len(),
{
    if a.len() == 0 {
        b.len() > 0
    } else if b.len() == 0 {
        false
    } else if a[0] == b[0] {
        bytes_before(a.drop_first(), b.drop_first())
    } else {
        a[0] < b[0]
    }
}

/// The order of paths: by the first component that differs, and a parent first.
pub open spec fn path_before(a: Seq<Seq<u8>>, b: Seq<Seq<u8>>) -> bool
    decreases a.len(),
{
    if a.len() == 0 {
        b.len() > 0
    } else if b.len() == 0 {
        false
    } else if a[0] == b[0] {
        path_before(a.drop_first(), b.drop_first())
    } else {
        bytes_before(a[0], b[0])
    }
}

/// Where one thing stands in an order, seen from another.
#[derive(Clone, Copy, Debug, PartialEq, Eq, Structural)]
pub enum Place {
    Before,
    Same,
    After,
}

proof fn lemma_bytes_total(a: Seq<u8>, b: Seq<u8>)
    ensures
        a == b || bytes_before(a, b) || bytes_before(b, a),
        !(bytes_before(a, b) && bytes_before(b, a)),
        a == b ==> !bytes_before(a, b),
    decreases a.len(),
{
    if a.len() > 0 && b.len() > 0 && a[0] == b[0] {
        lemma_bytes_total(a.drop_first(), b.drop_first());
        if a.drop_first() == b.drop_first() {
            assert(a =~= seq![a[0]] + a.drop_first());
            assert(b =~= seq![b[0]] + b.drop_first());
        }
    }
    if a.len() == 0 && b.len() == 0 {
        assert(a =~= b);
    }
}

proof fn lemma_bytes_transitive(a: Seq<u8>, b: Seq<u8>, c: Seq<u8>)
    requires
        bytes_before(a, b),
        bytes_before(b, c),
    ensures
        bytes_before(a, c),
    decreases a.len(),
{
    if a.len() > 0 && b.len() > 0 && c.len() > 0 && a[0] == b[0] && b[0] == c[0] {
        lemma_bytes_transitive(a.drop_first(), b.drop_first(), c.drop_first());
    }
}

/// Of two paths, either one comes first, or they are the same.
pub proof fn law_paths_are_ordered(a: Seq<Seq<u8>>, b: Seq<Seq<u8>>)
    ensures
        a == b || path_before(a, b) || path_before(b, a),
        !(path_before(a, b) && path_before(b, a)),
        a == b ==> !path_before(a, b),
    decreases a.len(),
{
    if a.len() > 0 && b.len() > 0 {
        lemma_bytes_total(a[0], b[0]);
        if a[0] == b[0] {
            law_paths_are_ordered(a.drop_first(), b.drop_first());
            if a.drop_first() == b.drop_first() {
                assert(a =~= seq![a[0]] + a.drop_first());
                assert(b =~= seq![b[0]] + b.drop_first());
            }
        }
    }
    if a.len() == 0 && b.len() == 0 {
        assert(a =~= b);
    }
}

/// A path before a path before a third is before the third.
pub proof fn law_path_order_is_transitive(a: Seq<Seq<u8>>, b: Seq<Seq<u8>>, c: Seq<Seq<u8>>)
    requires
        path_before(a, b),
        path_before(b, c),
    ensures
        path_before(a, c),
    decreases a.len(),
{
    if a.len() > 0 && b.len() > 0 && c.len() > 0 {
        if a[0] == b[0] && b[0] == c[0] {
            law_path_order_is_transitive(a.drop_first(), b.drop_first(), c.drop_first());
        } else if a[0] != b[0] && b[0] != c[0] {
            lemma_bytes_transitive(a[0], b[0], c[0]);
            lemma_bytes_total(a[0], c[0]);
        }
    }
}

fn place_of_bytes(a: &Vec<u8>, b: &Vec<u8>) -> (r: Place)
    ensures
        r == Place::Before <==> bytes_before(a@, b@),
        r == Place::Same <==> a@ == b@,
{
    let mut i: usize = 0;
    proof {
        assert(a@.skip(0) =~= a@);
        assert(b@.skip(0) =~= b@);
        lemma_bytes_total(a@, b@);
    }
    while i < a.len() && i < b.len()
        invariant
            i <= a@.len(),
            i <= b@.len(),
            a@.take(i as int) == b@.take(i as int),
            bytes_before(a@, b@) == bytes_before(a@.skip(i as int), b@.skip(i as int)),
        decreases a@.len() - i,
    {
        let ghost rest_a = a@.skip(i as int);
        let ghost rest_b = b@.skip(i as int);
        if a[i] != b[i] {
            assert(rest_a[0] == a@[i as int] && rest_b[0] == b@[i as int]);
            return if a[i] < b[i] {
                Place::Before
            } else {
                Place::After
            };
        }
        proof {
            assert(rest_a.drop_first() =~= a@.skip(i + 1));
            assert(rest_b.drop_first() =~= b@.skip(i + 1));
            assert(a@.take(i + 1) =~= a@.take(i as int).push(a@[i as int]));
            assert(b@.take(i + 1) =~= b@.take(i as int).push(b@[i as int]));
        }
        i += 1;
    }
    if a.len() == b.len() {
        proof {
            assert(a@.take(i as int) =~= a@);
            assert(b@.take(i as int) =~= b@);
        }
        Place::Same
    } else if a.len() < b.len() {
        Place::Before
    } else {
        Place::After
    }
}

/// Where a path stands, seen from another.
pub fn place_of_path(a: &FilePath, b: &FilePath) -> (r: Place)
    ensures
        r == Place::Before <==> path_before(a.key(), b.key()),
        r == Place::Same <==> a.key() == b.key(),
        r == Place::After <==> path_before(b.key(), a.key()),
{
    let mut i: usize = 0;
    let n: usize = a.components.len();
    let m: usize = b.components.len();
    let ghost ka = a.key();
    let ghost kb = b.key();
    proof {
        assert(ka.skip(0) =~= ka);
        assert(kb.skip(0) =~= kb);
        law_paths_are_ordered(ka, kb);
    }
    while i < n && i < m
        invariant
            n == a.components@.len() == ka.len(),
            m == b.components@.len() == kb.len(),
            ka == a.key(),
            kb == b.key(),
            i <= n,
            i <= m,
            ka.take(i as int) == kb.take(i as int),
            path_before(ka, kb) == path_before(ka.skip(i as int), kb.skip(i as int)),
            ka == kb || path_before(ka, kb) || path_before(kb, ka),
            !(path_before(ka, kb) && path_before(kb, ka)),
            ka == kb ==> !path_before(ka, kb),
        decreases n - i,
    {
        let ghost rest_a = ka.skip(i as int);
        let ghost rest_b = kb.skip(i as int);
        let place: Place = place_of_bytes(&a.components[i], &b.components[i]);
        proof {
            assert(rest_a[0] == a.components@[i as int]@);
            assert(rest_b[0] == b.components@[i as int]@);
            assert(rest_a[0] == ka[i as int] && rest_b[0] == kb[i as int]);
        }
        match place {
            Place::Same => {},
            _ => {
                return place;
            },
        }
        proof {
            assert(rest_a.drop_first() =~= ka.skip(i + 1));
            assert(rest_b.drop_first() =~= kb.skip(i + 1));
            assert(ka.take(i + 1) =~= ka.take(i as int).push(ka[i as int]));
            assert(kb.take(i + 1) =~= kb.take(i as int).push(kb[i as int]));
        }
        i += 1;
    }
    if n == m {
        proof {
            assert(ka.take(i as int) =~= ka);
            assert(kb.take(i as int) =~= kb);
        }
        Place::Same
    } else if n < m {
        Place::Before
    } else {
        Place::After
    }
}

/// What one row of a report is ordered by: first the path, then the offset. The path is an index
/// into a list of paths.
#[derive(Clone, Copy, Debug)]
pub struct RowKey {
    pub path: usize,
    pub offset: usize,
}

/// What each path of a list is ordered by.
pub open spec fn keys_of(paths: Seq<&FilePath>) -> Seq<Seq<Seq<u8>>> {
    paths.map_values(|path: &FilePath| path.key())
}

/// The row `i` comes before the row `j`. Rows that nothing else tells apart keep their order.
pub open spec fn row_before(
    keys: Seq<Seq<Seq<u8>>>,
    rows: Seq<RowKey>,
    i: int,
    j: int,
) -> bool {
    let a = rows[i];
    let b = rows[j];
    let path_a = keys[a.path as int];
    let path_b = keys[b.path as int];
    if path_a != path_b {
        path_before(path_a, path_b)
    } else if a.offset != b.offset {
        a.offset < b.offset
    } else {
        i < j
    }
}

/// The numbers from `lo` up to `hi`, each once, in the order of the rows that they name.
pub open spec fn in_row_order(
    keys: Seq<Seq<Seq<u8>>>,
    rows: Seq<RowKey>,
    order: Seq<usize>,
    lo: int,
    hi: int,
) -> bool {
    &&& order.len() == hi - lo
    &&& forall|k: int| 0 <= k < order.len() ==> lo <= #[trigger] order[k] < hi
    &&& forall|x: usize| lo <= x < hi ==> #[trigger] order.contains(x)
    &&& forall|i: int, j: int|
        0 <= i < j < order.len() ==> row_before(
            keys,
            rows,
            #[trigger] order[i] as int,
            #[trigger] order[j] as int,
        )
}

/// Of two rows, one comes first.
pub proof fn law_rows_are_ordered(keys: Seq<Seq<Seq<u8>>>, rows: Seq<RowKey>, i: int, j: int)
    requires
        i != j,
    ensures
        row_before(keys, rows, i, j) != row_before(keys, rows, j, i),
{
    law_paths_are_ordered(
        keys[rows[i].path as int],
        keys[rows[j].path as int],
    );
}

proof fn lemma_rows_transitive(
    keys: Seq<Seq<Seq<u8>>>,
    rows: Seq<RowKey>,
    i: int,
    j: int,
    k: int,
)
    requires
        row_before(keys, rows, i, j),
        row_before(keys, rows, j, k),
    ensures
        row_before(keys, rows, i, k),
{
    let a = keys[rows[i].path as int];
    let b = keys[rows[j].path as int];
    let c = keys[rows[k].path as int];
    if path_before(a, b) && path_before(b, c) {
        law_path_order_is_transitive(a, b, c);
    }
    law_paths_are_ordered(a, b);
    law_paths_are_ordered(b, c);
    law_paths_are_ordered(a, c);
}

fn is_row_before(paths: &Vec<&FilePath>, rows: &Vec<RowKey>, i: usize, j: usize) -> (r: bool)
    requires
        i < rows@.len(),
        j < rows@.len(),
        rows@[i as int].path < paths@.len(),
        rows@[j as int].path < paths@.len(),
    ensures
        r == row_before(keys_of(paths@), rows@, i as int, j as int),
{
    let a: RowKey = rows[i];
    let b: RowKey = rows[j];
    match place_of_path(paths[a.path], paths[b.path]) {
        Place::Before => true,
        Place::After => false,
        Place::Same => if a.offset != b.offset {
            a.offset < b.offset
        } else {
            i < j
        },
    }
}

/// Merges two lists of rows that are in order.
fn merge(
    paths: &Vec<&FilePath>,
    rows: &Vec<RowKey>,
    left: &Vec<usize>,
    right: &Vec<usize>,
    lo: usize,
    mid: usize,
    hi: usize,
) -> (r: Vec<usize>)
    requires
        lo <= mid <= hi <= rows@.len(),
        forall|k: int| 0 <= k < rows@.len() ==> (#[trigger] rows@[k]).path < paths@.len(),
        in_row_order(keys_of(paths@), rows@, left@, lo as int, mid as int),
        in_row_order(keys_of(paths@), rows@, right@, mid as int, hi as int),
    ensures
        in_row_order(keys_of(paths@), rows@, r@, lo as int, hi as int),
{
    let mut out: Vec<usize> = Vec::new();
    let mut i: usize = 0;
    let mut j: usize = 0;
    while i < left.len() || j < right.len()
        invariant
            lo <= mid <= hi <= rows@.len(),
            forall|k: int| 0 <= k < rows@.len() ==> (#[trigger] rows@[k]).path < paths@.len(),
            in_row_order(keys_of(paths@), rows@, left@, lo as int, mid as int),
            in_row_order(keys_of(paths@), rows@, right@, mid as int, hi as int),
            i <= left@.len(),
            j <= right@.len(),
            out@.len() == i + j,
            forall|k: int| 0 <= k < out@.len() ==> lo <= #[trigger] out@[k] < hi,
            forall|k: int| 0 <= k < i ==> out@.contains(#[trigger] left@[k]),
            forall|k: int| 0 <= k < j ==> out@.contains(#[trigger] right@[k]),
            forall|a: int, b: int|
                0 <= a < b < out@.len() ==> row_before(
                    keys_of(paths@),
                    rows@,
                    #[trigger] out@[a] as int,
                    #[trigger] out@[b] as int,
                ),
            forall|a: int, b: int|
                0 <= a < out@.len() && i <= b < left@.len() ==> row_before(
                    keys_of(paths@),
                    rows@,
                    #[trigger] out@[a] as int,
                    #[trigger] left@[b] as int,
                ),
            forall|a: int, b: int|
                0 <= a < out@.len() && j <= b < right@.len() ==> row_before(
                    keys_of(paths@),
                    rows@,
                    #[trigger] out@[a] as int,
                    #[trigger] right@[b] as int,
                ),
        decreases left@.len() - i + right@.len() - j,
    {
        let take_left: bool = if i >= left.len() {
            false
        } else if j >= right.len() {
            true
        } else {
            is_row_before(paths, rows, left[i], right[j])
        };
        let ghost before = out@;
        let next: usize = if take_left {
            left[i]
        } else {
            right[j]
        };
        proof {
            // What is left on both sides comes behind the row that is taken.
            assert forall|b: int| i <= b < left@.len() && !(take_left && b == i) implies row_before(
                keys_of(paths@),
                rows@,
                next as int,
                #[trigger] left@[b] as int,
            ) by {
                if take_left {
                    assert(row_before(keys_of(paths@), rows@, left@[i as int] as int, left@[b] as int));
                } else {
                    law_rows_are_ordered(
                        keys_of(paths@),
                        rows@,
                        left@[i as int] as int,
                        right@[j as int] as int,
                    );
                    if b > i {
                        assert(row_before(keys_of(paths@), rows@, left@[i as int] as int, left@[b] as int));
                        lemma_rows_transitive(
                            keys_of(paths@),
                            rows@,
                            next as int,
                            left@[i as int] as int,
                            left@[b] as int,
                        );
                    }
                }
            }
            assert forall|b: int| j <= b < right@.len() && !(!take_left && b == j) implies row_before(
                keys_of(paths@),
                rows@,
                next as int,
                #[trigger] right@[b] as int,
            ) by {
                if !take_left {
                    assert(row_before(keys_of(paths@), rows@, right@[j as int] as int, right@[b] as int));
                } else if b > j {
                    assert(row_before(keys_of(paths@), rows@, right@[j as int] as int, right@[b] as int));
                    lemma_rows_transitive(
                        keys_of(paths@),
                        rows@,
                        next as int,
                        right@[j as int] as int,
                        right@[b] as int,
                    );
                }
            }
        }
        out.push(next);
        proof {
            assert(forall|k: int| 0 <= k < before.len() ==> out@[k] == before[k]);
            assert(out@[before.len() as int] == next);
            assert forall|k: int| 0 <= k < i implies out@.contains(#[trigger] left@[k]) by {
                let p = choose|p: int| 0 <= p < before.len() && before[p] == left@[k];
                assert(before.contains(left@[k]));
                assert(out@[p] == left@[k]);
            }
            assert forall|k: int| 0 <= k < j implies out@.contains(#[trigger] right@[k]) by {
                assert(before.contains(right@[k]));
                let p = choose|p: int| 0 <= p < before.len() && before[p] == right@[k];
                assert(out@[p] == right@[k]);
            }
        }
        if take_left {
            i += 1;
        } else {
            j += 1;
        }
    }
    proof {
        assert forall|x: usize| lo <= x < hi implies #[trigger] out@.contains(x) by {
            if x < mid {
                assert(left@.contains(x));
                let k = choose|k: int| 0 <= k < left@.len() && left@[k] == x;
                assert(out@.contains(left@[k]));
            } else {
                assert(right@.contains(x));
                let k = choose|k: int| 0 <= k < right@.len() && right@[k] == x;
                assert(out@.contains(right@[k]));
            }
        }
    }
    out
}

/// The rows from `lo` up to `hi`, in order.
fn sort_range(paths: &Vec<&FilePath>, rows: &Vec<RowKey>, lo: usize, hi: usize) -> (r: Vec<usize>)
    requires
        lo <= hi <= rows@.len(),
        forall|k: int| 0 <= k < rows@.len() ==> (#[trigger] rows@[k]).path < paths@.len(),
    ensures
        in_row_order(keys_of(paths@), rows@, r@, lo as int, hi as int),
    decreases hi - lo,
{
    let mut r: Vec<usize> = Vec::new();
    if hi - lo == 0 {
        return r;
    }
    if hi - lo == 1 {
        r.push(lo);
        proof {
            assert(r@[0] == lo);
        }
        return r;
    }
    let mid: usize = lo + (hi - lo) / 2;
    let left: Vec<usize> = sort_range(paths, rows, lo, mid);
    let right: Vec<usize> = sort_range(paths, rows, mid, hi);
    merge(paths, rows, &left, &right, lo, mid, hi)
}

/// The indices of all rows, in the order of the rows.
pub fn sort_rows(paths: &Vec<&FilePath>, rows: &Vec<RowKey>) -> (r: Vec<usize>)
    requires
        forall|k: int| 0 <= k < rows@.len() ==> (#[trigger] rows@[k]).path < paths@.len(),
    ensures
        in_row_order(keys_of(paths@), rows@, r@, 0, rows@.len() as int),
{
    sort_range(paths, rows, 0, rows.len())
}

/// There is one order of the rows only.
pub proof fn law_row_order_is_unique(
    keys: Seq<Seq<Seq<u8>>>,
    rows: Seq<RowKey>,
    a: Seq<usize>,
    b: Seq<usize>,
    lo: int,
    hi: int,
)
    requires
        in_row_order(keys, rows, a, lo, hi),
        in_row_order(keys, rows, b, lo, hi),
    ensures
        a == b,
{
    assert forall|k: int| 0 <= k < a.len() implies a[k] == b[k] by {
        lemma_same_at(keys, rows, a, b, lo, hi, k);
    }
    assert(a =~= b);
}

proof fn lemma_same_at(
    keys: Seq<Seq<Seq<u8>>>,
    rows: Seq<RowKey>,
    a: Seq<usize>,
    b: Seq<usize>,
    lo: int,
    hi: int,
    k: int,
)
    requires
        in_row_order(keys, rows, a, lo, hi),
        in_row_order(keys, rows, b, lo, hi),
        0 <= k < a.len(),
    ensures
        a[k] == b[k],
    decreases k,
{
    assert forall|m: int| 0 <= m < k implies a[m] == b[m] by {
        lemma_same_at(keys, rows, a, b, lo, hi, m);
    }
    if a[k] != b[k] {
        // Each stands behind `k` in the other list, so each comes before the other.
        assert(b.contains(a[k]));
        let p = choose|p: int| 0 <= p < b.len() && b[p] == a[k];
        assert(a.contains(b[k]));
        let q = choose|q: int| 0 <= q < a.len() && a[q] == b[k];
        law_rows_are_ordered(keys, rows, a[k] as int, b[k] as int);
        if p < k {
            assert(a[p] == b[p]);
            assert(row_before(keys, rows, a[p] as int, a[k] as int));
            assert(!row_before(keys, rows, a[k] as int, a[k] as int)) by {
                law_paths_are_ordered(
                    keys[rows[a[k] as int].path as int],
                    keys[rows[a[k] as int].path as int],
                );
            }
        } else {
            assert(row_before(keys, rows, b[k] as int, b[p] as int));
            if q < k {
                assert(a[q] == b[q]);
                assert(row_before(keys, rows, b[q] as int, b[k] as int));
            } else {
                assert(row_before(keys, rows, a[k] as int, a[q] as int));
            }
        }
    }
}

/// The first byte that differs decides, and a byte string comes before its continuations.
pub proof fn law_first_byte_that_differs_decides(
    same: Seq<u8>,
    x: u8,
    y: u8,
    a: Seq<u8>,
    b: Seq<u8>,
)
    requires
        x < y,
    ensures
        bytes_before(same + seq![x] + a, same + seq![y] + b),
        bytes_before(same, same + seq![x] + a),
    decreases same.len(),
{
    let p = same + seq![x] + a;
    let q = same + seq![y] + b;
    if same.len() > 0 {
        law_first_byte_that_differs_decides(same.drop_first(), x, y, a, b);
        assert(p.drop_first() =~= same.drop_first() + seq![x] + a);
        assert(q.drop_first() =~= same.drop_first() + seq![y] + b);
        assert(p[0] == same[0] && q[0] == same[0]);
    } else {
        assert(p[0] == x && q[0] == y);
    }
}

/// The first component that differs decides, and a folder comes before what is in it.
pub proof fn law_first_component_that_differs_decides(
    same: Seq<Seq<u8>>,
    x: Seq<u8>,
    y: Seq<u8>,
    a: Seq<Seq<u8>>,
    b: Seq<Seq<u8>>,
)
    requires
        bytes_before(x, y),
    ensures
        path_before(same + seq![x] + a, same + seq![y] + b),
        path_before(same, same + seq![x] + a),
    decreases same.len(),
{
    let p = same + seq![x] + a;
    let q = same + seq![y] + b;
    if same.len() > 0 {
        law_first_component_that_differs_decides(same.drop_first(), x, y, a, b);
        assert(p.drop_first() =~= same.drop_first() + seq![x] + a);
        assert(q.drop_first() =~= same.drop_first() + seq![y] + b);
        assert(p[0] == same[0] && q[0] == same[0]);
    } else {
        assert(p[0] == x && q[0] == y);
        lemma_bytes_total(x, y);
    }
}

/// The path of a row decides first, then its offset, then where it stood.
pub proof fn law_path_decides_before_offset(
    keys: Seq<Seq<Seq<u8>>>,
    rows: Seq<RowKey>,
    i: int,
    j: int,
)
    requires
        i < j,
    ensures
        path_before(keys[rows[i].path as int], keys[rows[j].path as int]) ==> row_before(
            keys,
            rows,
            i,
            j,
        ) && !row_before(keys, rows, j, i),
        path_before(keys[rows[j].path as int], keys[rows[i].path as int]) ==> row_before(
            keys,
            rows,
            j,
            i,
        ) && !row_before(keys, rows, i, j),
        keys[rows[i].path as int] == keys[rows[j].path as int] ==> (row_before(keys, rows, j, i)
            <==> rows[j].offset < rows[i].offset),
{
    law_paths_are_ordered(keys[rows[i].path as int], keys[rows[j].path as int]);
}

/// An order holds each of the numbers from `lo` up to `hi` once.
pub proof fn law_order_holds_each_row_once(
    keys: Seq<Seq<Seq<u8>>>,
    rows: Seq<RowKey>,
    order: Seq<usize>,
    lo: int,
    hi: int,
    row: usize,
)
    requires
        in_row_order(keys, rows, order, lo, hi),
        lo <= row < hi,
    ensures
        order.len() == hi - lo,
        exists|k: int| 0 <= k < order.len() && #[trigger] order[k] == row,
        forall|i: int, j: int|
            0 <= i < j < order.len() ==> #[trigger] order[i] != #[trigger] order[j],
{
    assert(order.contains(row));
    assert forall|i: int, j: int| 0 <= i < j < order.len() implies #[trigger] order[i]
        != #[trigger] order[j] by {
        let k = keys[rows[order[i] as int].path as int];
        law_paths_are_ordered(k, k);
        assert(row_before(keys, rows, order[i] as int, order[j] as int));
    }
}

/// A path is ordered, and told apart, by all its components from the root down.
pub proof fn law_key_is_the_components(path: FilePath, i: int)
    requires
        0 <= i < path.components@.len(),
    ensures
        path.key().len() == path.components@.len(),
        path.key()[i] == path.components@[i]@,
{
}

} // verus!
