//! Planning of a user-to-UAV association request: the checks that decide, before
//! any optimisation runs, whether there is nothing to associate, whether the
//! request is infeasible for lack of capacity, or whether it must be optimised.
use vstd::prelude::*;
use vstd::string::StringExecFns;

verus! {

/// The character of a decimal digit.
pub open spec fn digit_char(d: nat) -> char {
    (d + 48) as char
}

/// The decimal representation of `n`, without leading zeros.
pub open spec fn decimal(n: nat) -> Seq<char>
    decreases n,
{
    if n < 10 {
        seq![digit_char(n)]
    } else {
        decimal(n / 10).push(digit_char(n % 10))
    }
}

/// The message given when the users exceed the total capacity of the UAVs.
pub open spec fn infeasible_message(num_users: nat, capacity: nat) -> Seq<char> {
    "Infeasible: "@ + decimal(num_users) + " users exceed total network capacity of "@ + decimal(
        capacity,
    )
}

/// `usize::to_string`: the decimal representation of the number, as std's
/// `Display` for integers documents it.
#[verifier::external_body]
fn decimal_string(n: usize) -> (s: String)
    ensures
        s@ == decimal(n as nat),
{
    n.to_string()
}

/// What an association request calls for once it has been checked.
#[derive(Debug, Clone, Copy, PartialEq, Eq, Structural)]
pub enum AssociationPlan {
    /// There are no users: the association is the empty matrix.
    Empty,
    /// The users fit in the total capacity: an optimal association must be computed.
    Optimize,
}

/// An optimal association strategy utilizing Integer Linear Programming (ILP).
/// It minimizes the total distance between users and their connected UAVs
/// while strictly adhering to maximum connection capacities.
#[derive(Debug, Clone, Copy)]
pub struct IlpAssociation;

impl IlpAssociation {
    /// Plans an association request of `num_users` users and `num_uavs` UAVs that
    /// take at most `max_connections_per_uav` users each: a request with no users
    /// needs no work, a request whose users exceed the total capacity (which is
    /// zero when there are no UAVs) is infeasible, and any other must be optimised.
    pub fn plan(&self, num_users: usize, num_uavs: usize, max_connections_per_uav: usize) -> (r:
        Result<AssociationPlan, String>)
        ensures
            num_users == 0 ==> r == Ok::<AssociationPlan, String>(AssociationPlan::Empty),
            num_users > 0 && num_users <= num_uavs * max_connections_per_uav ==> r == Ok::<
                AssociationPlan,
                String,
            >(AssociationPlan::Optimize),
            num_users > 0 && num_users > num_uavs * max_connections_per_uav ==> (r matches Err(msg)
                && msg@ == infeasible_message(
                num_users as nat,
                (num_uavs * max_connections_per_uav) as nat,
            )),
            num_users > 0 ==> (r is Err <==> !exists|m: Seq<Seq<bool>>|
                is_valid_association(
                    m,
                    num_users as nat,
                    num_uavs as nat,
                    max_connections_per_uav as nat,
                )),
    {
        proof {
            lemma_association_exists_iff_within_capacity(
                num_users as nat,
                num_uavs as nat,
                max_connections_per_uav as nat,
            );
        }
        if num_users == 0 {
            return Ok(AssociationPlan::Empty);
        }
        match num_uavs.checked_mul(max_connections_per_uav) {
            None => Ok(AssociationPlan::Optimize),
            Some(capacity) => {
                if num_users > capacity {
                    let mut msg = String::from_str("Infeasible: ");
                    let users = decimal_string(num_users);
                    msg.append(users.as_str());
                    msg.append(" users exceed total network capacity of ");
                    let total = decimal_string(capacity);
                    msg.append(total.as_str());
                    Err(msg)
                } else {
                    Ok(AssociationPlan::Optimize)
                }
            },
        }
    }
}

/// The last column of `row` that holds `true`, if any.
pub open spec fn last_connected(row: Seq<bool>) -> Option<nat>
    decreases row.len(),
{
    if row.len() == 0 {
        None
    } else if row.last() {
        Some((row.len() - 1) as nat)
    } else {
        last_connected(row.drop_last())
    }
}

/// The rows among the first `n` of `matrix` whose column `j` holds `true`, in order.
pub open spec fn connected_rows(matrix: Seq<Seq<bool>>, j: int, n: int) -> Seq<usize>
    decreases n,
{
    if n <= 0 {
        Seq::empty()
    } else if 0 <= j < matrix[n - 1].len() && matrix[n - 1][j] {
        connected_rows(matrix, j, n - 1).push((n - 1) as usize)
    } else {
        connected_rows(matrix, j, n - 1)
    }
}

/// The rows of `matrix` as sequences.
pub open spec fn rows_of(matrix: Seq<Vec<bool>>) -> Seq<Seq<bool>> {
    matrix.map_values(|r: Vec<bool>| r@)
}

/// What a user's UAV is: when some column of `row` holds `true`, the last
/// such column; when none does, no UAV.
pub proof fn lemma_last_connected(row: Seq<bool>)
    ensures
        last_connected(row) matches Some(j) ==> (j < row.len() && row[j as int] && forall|k: int|
            j < k < row.len() ==> !#[trigger] row[k]),
        last_connected(row) is None ==> forall|k: int| 0 <= k < row.len() ==> !#[trigger] row[k],
    decreases row.len(),
{
    if row.len() > 0 && !row.last() {
        lemma_last_connected(row.drop_last());
        assert forall|k: int| 0 <= k < row.len() - 1 implies row[k] == row.drop_last()[k] by {}
    }
}

/// Which users a UAV's list holds: the rows below `n` whose column `j` holds
/// `true`, each once, in increasing order, and no others.
pub proof fn lemma_connected_rows(matrix: Seq<Seq<bool>>, j: int, n: int)
    requires
        0 <= n <= usize::MAX + 1,
    ensures
        forall|k: int|
            0 <= k < connected_rows(matrix, j, n).len() ==> {
                let i = #[trigger] connected_rows(matrix, j, n)[k] as int;
                &&& 0 <= i < n
                &&& 0 <= j < matrix[i].len()
                &&& matrix[i][j]
            },
        forall|k1: int, k2: int|
            0 <= k1 < k2 < connected_rows(matrix, j, n).len() ==> #[trigger] connected_rows(
                matrix,
                j,
                n,
            )[k1] < #[trigger] connected_rows(matrix, j, n)[k2],
        forall|i: int|
            0 <= i < n && 0 <= j < matrix[i].len() && #[trigger] matrix[i][j] ==> connected_rows(
                matrix,
                j,
                n,
            ).contains(i as usize),
    decreases n,
{
    if n > 0 {
        lemma_connected_rows(matrix, j, n - 1);
        let prev = connected_rows(matrix, j, n - 1);
        let cur = connected_rows(matrix, j, n);
        assert forall|i: int|
            0 <= i < n && 0 <= j < matrix[i].len() && #[trigger] matrix[i][j] implies cur.contains(
            i as usize,
        ) by {
            if i < n - 1 {
                assert(prev.contains(i as usize));
                let k = choose|k: int| 0 <= k < prev.len() && prev[k] == i as usize;
                assert(cur[k] == prev[k]);
            } else {
                assert(cur[cur.len() - 1] == i as usize);
            }
        }
    }
}

/// A row's count of connections grows by one exactly when a connected cell is added.
pub proof fn lemma_true_count_push(row: Seq<bool>, cell: bool)
    ensures
        true_count(Seq::<bool>::empty()) == 0,
        true_count(row.push(cell)) == true_count(row) + if cell {
            1int
        } else {
            0int
        },
{
    assert(row.push(cell).drop_last() =~= row);
}

/// Reads an association matrix (`matrix[user][uav]` is `true` when the user is
/// connected to the UAV): for each user, the UAV it ends up connected to (the
/// last one marked in its row, as each mark overrides the previous one), and
/// for each of the `num_uavs` UAVs, the users connected to it, in order. Every
/// mark must name one of the `num_uavs` UAVs.
pub fn connections(matrix: &Vec<Vec<bool>>, num_uavs: usize) -> (r: (Vec<Option<usize>>, Vec<Vec<usize>>))
    requires
        forall|i: int, j: int|
            0 <= i < matrix.len() && 0 <= j < matrix[i].len() && #[trigger] matrix[i][j] ==> j
                < num_uavs,
    ensures
        r.0.len() == matrix.len(),
        forall|i: int|
            0 <= i < matrix.len() ==> #[trigger] r.0[i] == match last_connected(matrix[i]@) {
                Some(j) => Some(j as usize),
                None => None::<usize>,
            },
        r.1.len() == num_uavs,
        forall|j: int|
            0 <= j < num_uavs ==> #[trigger] r.1[j]@ == connected_rows(
                rows_of(matrix@),
                j,
                matrix.len() as int,
            ),
        forall|i: int|
            0 <= i < matrix.len() ==> (#[trigger] r.0[i] matches Some(j) ==> (j < matrix[i].len()
                && matrix[i][j as int] && forall|k: int|
                j < k < matrix[i].len() ==> !#[trigger] matrix[i][k])),
        forall|i: int|
            0 <= i < matrix.len() && #[trigger] r.0[i] is None ==> forall|k: int|
                0 <= k < matrix[i].len() ==> !#[trigger] matrix[i][k],
        forall|j: int, k: int|
            0 <= j < num_uavs && 0 <= k < r.1[j].len() ==> {
                let i = #[trigger] r.1[j][k] as int;
                &&& 0 <= i < matrix.len()
                &&& j < matrix[i].len()
                &&& matrix[i][j]
            },
        forall|j: int, k1: int, k2: int|
            0 <= j < num_uavs && 0 <= k1 < k2 < r.1[j].len() ==> #[trigger] r.1[j][k1]
                < #[trigger] r.1[j][k2],
        forall|i: int, j: int|
            0 <= i < matrix.len() && 0 <= j < matrix[i].len() && #[trigger] matrix[i][j]
                ==> r.1[j]@.contains(i as usize),
{
    let mut uav_of_user: Vec<Option<usize>> = Vec::new();
    let mut users_of_uav: Vec<Vec<usize>> = Vec::new();
    let mut k: usize = 0;
    while k < num_uavs
        invariant
            k <= num_uavs,
            users_of_uav.len() == k,
            forall|j: int| 0 <= j < k ==> (#[trigger] users_of_uav[j])@ == Seq::<usize>::empty(),
        decreases num_uavs - k,
    {
        users_of_uav.push(Vec::new());
        k = k + 1;
    }
    let ghost rows = rows_of(matrix@);
    let mut i: usize = 0;
    while i < matrix.len()
        invariant
            i <= matrix.len(),
            rows == rows_of(matrix@),
            forall|u: int, c: int|
                0 <= u < matrix.len() && 0 <= c < matrix[u].len() && #[trigger] matrix[u][c] ==> c
                    < num_uavs,
            uav_of_user.len() == i,
            forall|u: int|
                0 <= u < i ==> #[trigger] uav_of_user[u] == match last_connected(matrix[u]@) {
                    Some(j) => Some(j as usize),
                    None => None::<usize>,
                },
            users_of_uav.len() == num_uavs,
            forall|j: int|
                0 <= j < num_uavs ==> (#[trigger] users_of_uav[j])@ == connected_rows(
                    rows,
                    j,
                    i as int,
                ),
        decreases matrix.len() - i,
    {
        let row = &matrix[i];
        assert(rows[i as int] == row@);
        assert(forall|c: int| 0 <= c < row.len() && #[trigger] row[c] ==> c < num_uavs) by {
            assert(forall|c: int| 0 <= c < row.len() ==> row[c] == matrix[i as int][c]);
        }
        let mut chosen: Option<usize> = None;
        let mut j: usize = 0;
        while j < row.len()
            invariant
                j <= row.len(),
                forall|c: int| 0 <= c < row.len() && #[trigger] row[c] ==> c < num_uavs,
                i < matrix.len(),
                rows == rows_of(matrix@),
                rows[i as int] == row@,
                chosen == match last_connected(row@.take(j as int)) {
                    Some(c) => Some(c as usize),
                    None => None::<usize>,
                },
                users_of_uav.len() == num_uavs,
                forall|c: int|
                    0 <= c < j && c < num_uavs ==> (#[trigger] users_of_uav[c])@ == connected_rows(
                        rows,
                        c,
                        i + 1,
                    ),
                forall|c: int|
                    j <= c < num_uavs ==> (#[trigger] users_of_uav[c])@ == connected_rows(
                        rows,
                        c,
                        i as int,
                    ),
            decreases row.len() - j,
        {
            assert(row@.take(j + 1).drop_last() =~= row@.take(j as int));
            if row[j] {
                chosen = Some(j);
                let mut users = users_of_uav[j].clone();
                users.push(i);
                users_of_uav.set(j, users);
            }
            j = j + 1;
        }
        assert(row@.take(row.len() as int) =~= row@);
        assert forall|c: int| row.len() <= c < num_uavs implies (#[trigger] users_of_uav[c])@
            == connected_rows(rows, c, i + 1) by {
            assert(!(0 <= c < rows[i as int].len()));
        }
        uav_of_user.push(chosen);
        i = i + 1;
    }
    proof {
        assert forall|u: int| 0 <= u < matrix.len() implies rows[u] == matrix[u]@ by {}
        assert forall|j: int| 0 <= j < num_uavs implies {
            let s = #[trigger] users_of_uav[j]@;
            &&& forall|k: int|
                0 <= k < s.len() ==> {
                    let i = #[trigger] s[k] as int;
                    &&& 0 <= i < matrix.len()
                    &&& j < matrix[i].len()
                    &&& matrix[i][j]
                }
            &&& forall|k1: int, k2: int| 0 <= k1 < k2 < s.len() ==> #[trigger] s[k1] < #[trigger] s[k2]
            &&& forall|i: int|
                0 <= i < matrix.len() && 0 <= j < matrix[i].len() && #[trigger] matrix[i][j]
                    ==> s.contains(i as usize)
        } by {
            lemma_connected_rows(rows, j, matrix.len() as int);
            let s = users_of_uav[j]@;
            assert forall|k: int| 0 <= k < s.len() implies {
                let i = #[trigger] s[k] as int;
                &&& 0 <= i < matrix.len()
                &&& j < matrix[i].len()
                &&& matrix[i][j]
            } by {
                let i = s[k] as int;
                assert(rows[i] == matrix[i]@);
            }
            assert forall|i: int|
                0 <= i < matrix.len() && 0 <= j < matrix[i].len() && #[trigger] matrix[i][j]
                    implies s.contains(i as usize) by {
                assert(rows[i] == matrix[i]@);
            }
        }
        assert forall|i: int| 0 <= i < matrix.len() implies {
            &&& (#[trigger] uav_of_user[i] matches Some(j) ==> (j < matrix[i].len()
                && matrix[i][j as int] && forall|k: int|
                j < k < matrix[i].len() ==> !#[trigger] matrix[i][k]))
            &&& uav_of_user[i] is None ==> forall|k: int|
                0 <= k < matrix[i].len() ==> !#[trigger] matrix[i][k]
        } by {
            lemma_last_connected(matrix[i]@);
        }
    }
    (uav_of_user, users_of_uav)
}

/// The number of entries of `row` that hold `true`.
pub open spec fn true_count(row: Seq<bool>) -> nat
    decreases row.len(),
{
    if row.len() == 0 {
        0
    } else {
        true_count(row.drop_last()) + if row.last() {
            1nat
        } else {
            0nat
        }
    }
}

/// `matrix` associates `num_users` users with `num_uavs` UAVs as the ILP model
/// requires: one row per user and one column per UAV, every user connected to
/// exactly one UAV, and no UAV connected to more than `max_connections_per_uav` users.
pub open spec fn is_valid_association(
    matrix: Seq<Seq<bool>>,
    num_users: nat,
    num_uavs: nat,
    max_connections_per_uav: nat,
) -> bool {
    &&& matrix.len() == num_users
    &&& forall|i: int|
        0 <= i < num_users ==> (#[trigger] matrix[i]).len() == num_uavs && true_count(matrix[i])
            == 1
    &&& forall|j: int|
        0 <= j < num_uavs ==> (#[trigger] connected_rows(matrix, j, num_users as int)).len()
            <= max_connections_per_uav
}

/// The number of connections in the first `k` columns over the first `n` rows.
pub open spec fn column_total(matrix: Seq<Seq<bool>>, n: int, k: int) -> nat
    decreases k,
{
    if k <= 0 {
        0
    } else {
        column_total(matrix, n, k - 1) + connected_rows(matrix, k - 1, n).len()
    }
}

/// Adding row `n` adds its connections in the first `k` columns to the column total.
proof fn lemma_column_total_next_row(matrix: Seq<Seq<bool>>, n: int, k: int)
    requires
        0 <= n < matrix.len(),
        0 <= k <= matrix[n].len(),
    ensures
        column_total(matrix, n + 1, k) == column_total(matrix, n, k) + true_count(
            matrix[n].take(k),
        ),
    decreases k,
{
    if k > 0 {
        lemma_column_total_next_row(matrix, n, k - 1);
        assert(matrix[n].take(k).drop_last() =~= matrix[n].take(k - 1));
    }
}

/// When every row is as wide as the columns counted and holds one connection,
/// the column total over the first `n` rows is `n`.
proof fn lemma_column_total_counts_rows(matrix: Seq<Seq<bool>>, n: int, k: int)
    requires
        0 <= n <= matrix.len(),
        forall|i: int| 0 <= i < n ==> (#[trigger] matrix[i]).len() == k && true_count(matrix[i]) == 1,
    ensures
        column_total(matrix, n, k) == n,
    decreases n,
{
    if n == 0 {
        lemma_column_total_empty(matrix, k);
    } else {
        lemma_column_total_counts_rows(matrix, n - 1, k);
        lemma_column_total_next_row(matrix, n - 1, k);
        assert(matrix[n - 1].take(k) =~= matrix[n - 1]);
    }
}

/// Over no rows, the column total is zero.
proof fn lemma_column_total_empty(matrix: Seq<Seq<bool>>, k: int)
    ensures
        column_total(matrix, 0, k) == 0,
    decreases k,
{
    if k > 0 {
        lemma_column_total_empty(matrix, k - 1);
    }
}

/// When no column holds more than `bound` connections, the column total over
/// `k` columns is at most `k * bound`.
proof fn lemma_column_total_bounded(matrix: Seq<Seq<bool>>, n: int, k: int, bound: nat)
    requires
        k >= 0,
        forall|j: int| 0 <= j < k ==> (#[trigger] connected_rows(matrix, j, n)).len() <= bound,
    ensures
        column_total(matrix, n, k) <= k * bound,
    decreases k,
{
    if k > 0 {
        lemma_column_total_bounded(matrix, n, k - 1, bound);
        assert(connected_rows(matrix, k - 1, n).len() <= bound);
        assert((k - 1) * bound + bound == k * bound) by (nonlinear_arith);
    }
}

/// Row `i` belongs to block `i / size`: the rows `j * size .. j * size + size`.
proof fn lemma_block(i: int, size: int, j: int)
    requires
        0 <= i,
        0 < size,
        0 <= j,
    ensures
        (i / size == j) <==> (j * size <= i && i < j * size + size),
{
    vstd::arithmetic::div_mod::lemma_fundamental_div_mod(i, size);
    vstd::arithmetic::div_mod::lemma_mod_pos_bound(i, size);
    let q = i / size;
    let r = i % size;
    assert(i == size * q + r);
    if q < j {
        assert(q * size + size <= j * size) by (nonlinear_arith)
            requires
                q < j,
                0 < size,
        ;
        assert(size * q == q * size) by (nonlinear_arith);
    } else if q > j {
        assert(j * size + size <= q * size) by (nonlinear_arith)
            requires
                q > j,
                0 < size,
        ;
        assert(size * q == q * size) by (nonlinear_arith);
    } else {
        assert(size * q == j * size) by (nonlinear_arith)
            requires
                q == j,
        ;
    }
}

/// The association that fills the UAVs in order: user `i` goes to UAV `i / max`.
pub open spec fn block_association(num_users: nat, num_uavs: nat, max_connections_per_uav: nat) -> Seq<
    Seq<bool>,
> {
    Seq::new(
        num_users,
        |i: int| Seq::new(num_uavs, |j: int| j == i / (max_connections_per_uav as int)),
    )
}

/// A row with its only `true` at column `t` holds one connection.
proof fn lemma_one_hot(k: nat, t: int)
    requires
        0 <= t < k,
    ensures
        true_count(Seq::new(k, |j: int| j == t)) == 1,
    decreases k,
{
    let row = Seq::new(k, |j: int| j == t);
    if t < k - 1 {
        lemma_one_hot((k - 1) as nat, t);
        assert(row.drop_last() =~= Seq::new((k - 1) as nat, |j: int| j == t));
    } else {
        lemma_no_hot((k - 1) as nat, t);
        assert(row.drop_last() =~= Seq::new((k - 1) as nat, |j: int| j == t));
    }
}

/// A row whose columns all lie before `t` holds no connection.
proof fn lemma_no_hot(k: nat, t: int)
    requires
        k <= t,
    ensures
        true_count(Seq::new(k, |j: int| j == t)) == 0,
    decreases k,
{
    if k > 0 {
        lemma_no_hot((k - 1) as nat, t);
        assert(Seq::new(k, |j: int| j == t).drop_last() =~= Seq::new((k - 1) as nat, |j: int| j == t));
    }
}

/// In the block association, column `j` counts the users of block `j` among the first `n`.
proof fn lemma_block_column(num_users: nat, num_uavs: nat, size: nat, j: int, n: int)
    requires
        0 < size,
        0 <= j < num_uavs,
        0 <= n <= num_users,
    ensures
        connected_rows(block_association(num_users, num_uavs, size), j, n).len() == if n <= j
            * size {
            0
        } else if n >= j * size + size {
            size as int
        } else {
            n - j * size
        },
    decreases n,
{
    let m = block_association(num_users, num_uavs, size);
    if n > 0 {
        lemma_block_column(num_users, num_uavs, size, j, n - 1);
        lemma_block(n - 1, size as int, j);
        assert(m[n - 1].len() == num_uavs);
        assert(m[n - 1][j] == (j == (n - 1) / (size as int)));
    }
}

/// The capacity check is exact: an association of `num_users` users with
/// `num_uavs` UAVs of `max_connections_per_uav` connections each exists if and
/// only if the users do not exceed the total capacity. So a request that
/// `IlpAssociation::plan` finds infeasible has no valid association, and any
/// other has one.
pub proof fn lemma_association_exists_iff_within_capacity(
    num_users: nat,
    num_uavs: nat,
    max_connections_per_uav: nat,
)
    ensures
        (exists|m: Seq<Seq<bool>>|
            is_valid_association(m, num_users, num_uavs, max_connections_per_uav)) <==> num_users
            <= num_uavs * max_connections_per_uav,
{
    if num_users <= num_uavs * max_connections_per_uav {
        let m = block_association(num_users, num_uavs, max_connections_per_uav);
        if num_users == 0 {
            assert(is_valid_association(m, num_users, num_uavs, max_connections_per_uav));
        } else {
            assert(max_connections_per_uav > 0) by (nonlinear_arith)
                requires
                    0 < num_users <= num_uavs * max_connections_per_uav,
            ;
            let size = max_connections_per_uav as int;
            assert forall|i: int| 0 <= i < num_users implies (#[trigger] m[i]).len() == num_uavs
                && true_count(m[i]) == 1 by {
                let t = i / size;
                lemma_block(i, size, t);
                vstd::arithmetic::div_mod::lemma_fundamental_div_mod(i, size);
                vstd::arithmetic::div_mod::lemma_mod_pos_bound(i, size);
                assert(t >= 0) by (nonlinear_arith)
                    requires
                        i >= 0,
                        size > 0,
                        t == i / size,
                ;
                if t >= num_uavs {
                    assert(num_uavs * size <= t * size) by (nonlinear_arith)
                        requires
                            t >= num_uavs,
                            size > 0,
                    ;
                }
                lemma_one_hot(num_uavs, t);
                assert(m[i] =~= Seq::new(num_uavs, |j: int| j == t));
            }
            assert forall|j: int| 0 <= j < num_uavs implies (#[trigger] connected_rows(
                m,
                j,
                num_users as int,
            )).len() <= max_connections_per_uav by {
                lemma_block_column(num_users, num_uavs, max_connections_per_uav, j, num_users as int);
            }
            assert(is_valid_association(m, num_users, num_uavs, max_connections_per_uav));
        }
    } else {
        if exists|m: Seq<Seq<bool>>|
            is_valid_association(m, num_users, num_uavs, max_connections_per_uav) {
            let m = choose|m: Seq<Seq<bool>>|
                is_valid_association(m, num_users, num_uavs, max_connections_per_uav);
            lemma_column_total_counts_rows(m, num_users as int, num_uavs as int);
            lemma_column_total_bounded(m, num_users as int, num_uavs as int, max_connections_per_uav);
        }
    }
}

/// A row holding a connection has a last connected column, which holds `true`.
proof fn lemma_last_connected_found(row: Seq<bool>)
    requires
        true_count(row) > 0,
    ensures
        last_connected(row) matches Some(j) && j < row.len() && row[j as int],
    decreases row.len(),
{
    if !row.last() {
        lemma_last_connected_found(row.drop_last());
    }
}

/// Reading a valid association connects every user to a UAV it is marked for,
/// and no UAV to more users than it may take.
pub proof fn lemma_valid_association_connects_everyone(
    matrix: Seq<Seq<bool>>,
    num_users: nat,
    num_uavs: nat,
    max_connections_per_uav: nat,
)
    requires
        is_valid_association(matrix, num_users, num_uavs, max_connections_per_uav),
    ensures
        forall|i: int|
            0 <= i < num_users ==> ((#[trigger] last_connected(matrix[i])) matches Some(j) && j
                < num_uavs && matrix[i][j as int]),
        forall|j: int|
            0 <= j < num_uavs ==> (#[trigger] connected_rows(matrix, j, num_users as int)).len()
                <= max_connections_per_uav,
{
    assert forall|i: int| 0 <= i < num_users implies ((#[trigger] last_connected(matrix[i])) matches Some(
        j,
    ) && j < num_uavs && matrix[i][j as int]) by {
        assert(true_count(matrix[i]) == 1);
        lemma_last_connected_found(matrix[i]);
    }
}

} // verus!
