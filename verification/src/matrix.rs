use vstd::prelude::*;

use crate::env::EnvMap;
use crate::error::Error;
use crate::pattern::{regex_match, regex_valid, Pattern};
use crate::plan::Invocation;
use crate::strutil::dec_str;
use crate::strutil::u64_to_string;
use crate::workflow::{Matrix, MatrixCell};

verus! {

/// The sizes of the dimensions.
pub open spec fn dims_lens(dims: Seq<Vec<MatrixCell>>) -> Seq<nat> {
    dims.map_values(|d: Vec<MatrixCell>| d@.len())
}

/// The number of points of the full cartesian product.
pub open spec fn product_count(lens: Seq<nat>) -> nat
    decreases lens.len(),
{
    if lens.len() == 0 {
        1
    } else {
        product_count(lens.drop_last()) * lens.last()
    }
}

/// A point extended by every index of one more dimension.
pub open spec fn extend_point(p: Seq<int>, k: nat) -> Seq<Seq<int>> {
    Seq::new(k, |j: int| p.push(j))
}

/// Each point extended by every index of one more dimension, in order.
pub open spec fn extend_all(base: Seq<Seq<int>>, k: nat) -> Seq<Seq<int>> {
    base.flat_map(|p: Seq<int>| extend_point(p, k))
}

/// Every index tuple of the cartesian product, in order; the last
/// dimension varies fastest.
pub open spec fn all_points(lens: Seq<nat>) -> Seq<Seq<int>>
    decreases lens.len(),
{
    if lens.len() == 0 {
        seq![Seq::<int>::empty()]
    } else {
        extend_all(all_points(lens.drop_last()), lens.last())
    }
}

/// Extending a longer prefix appends the extensions of one more point.
proof fn lemma_extend_all_take(base: Seq<Seq<int>>, k: nat, i: int)
    requires
        0 <= i < base.len(),
    ensures
        extend_all(base.take(i + 1), k) =~= extend_all(base.take(i), k) + extend_point(base[i], k),
{
    let f = |p: Seq<int>| extend_point(p, k);
    base.lemma_flat_map_take_append(f, i);
    assert(base.take(i + 1).flat_map(f) =~= base.take(i).flat_map(f) + f(base[i]));
}

/// Extending by a dimension of size `k` multiplies the point count.
proof fn lemma_extend_all_len(base: Seq<Seq<int>>, k: nat)
    ensures
        extend_all(base, k).len() == base.len() * k,
    decreases base.len(),
{
    let f = |p: Seq<int>| extend_point(p, k);
    if base.len() == 0 {
        assert(base.flat_map(f) =~= Seq::<Seq<int>>::empty());
    } else {
        lemma_extend_all_len(base.drop_last(), k);
        base.drop_last().lemma_flat_map_push(f, base.last());
        assert(base.drop_last().push(base.last()) =~= base);
        assert(extend_all(base, k) =~= extend_all(base.drop_last(), k) + f(base.last()));
        assert((base.len() - 1) * k + k == base.len() * k) by (nonlinear_arith);
    }
}

/// Matrix expansion yields the full product of the dimension sizes
/// before any filtering.
pub proof fn lemma_all_points_count(lens: Seq<nat>)
    ensures
        all_points(lens).len() == product_count(lens),
    decreases lens.len(),
{
    if lens.len() > 0 {
        lemma_all_points_count(lens.drop_last());
        lemma_extend_all_len(all_points(lens.drop_last()), lens.last());
    }
}

/// A sequence of machine indices, as mathematical integers.
pub open spec fn idx_view(p: Seq<usize>) -> Seq<int> {
    p.map_values(|x: usize| x as int)
}

/// The index views of a sequence of points.
pub open spec fn pts_view(v: Seq<Vec<usize>>) -> Seq<Seq<int>> {
    v.map_values(|p: Vec<usize>| idx_view(p@))
}

/// The comma-joined decimal coordinates of a point.
pub open spec fn coord_str(p: Seq<int>) -> Seq<char>
    decreases p.len(),
{
    if p.len() == 0 {
        Seq::empty()
    } else if p.len() == 1 {
        dec_str(p[0] as nat)
    } else {
        coord_str(p.drop_last()) + seq![','] + dec_str(p.last() as nat)
    }
}

/// Renders a point's coordinates, comma-joined.
pub fn coords_string(p: &Vec<usize>) -> (s: String)
    ensures
        s@ == coord_str(idx_view(p@)),
{
    let mut s = String::new();
    let n = p.len();
    let mut i: usize = 0;
    proof {
        assert(idx_view(p@).take(0) =~= Seq::<int>::empty());
    }
    while i < n
        invariant
            n == p@.len(),
            i <= n,
            s@ == coord_str(idx_view(p@).take(i as int)),
        decreases n - i,
    {
        if i > 0 {
            proof {
                reveal_strlit(",");
            }
            s.append(",");
        }
        s.append(u64_to_string(p[i] as u64).as_str());
        proof {
            let v = idx_view(p@);
            assert(v.take(i as int + 1).drop_last() =~= v.take(i as int));
            assert(v.take(i as int + 1).last() == v[i as int]);
            assert(v[i as int] == p@[i as int] as int);
            if i == 0 {
                assert(coord_str(v.take(1)) == dec_str(v[0] as nat));
            } else {
                assert(","@ =~= seq![',']);
            }
        }
        i += 1;
    }
    proof {
        assert(idx_view(p@).take(n as int) =~= idx_view(p@));
    }
    s
}

/// The variables one selected cell contributes.
pub open spec fn cell_env(c: MatrixCell) -> Map<Seq<char>, Seq<char>> {
    match c.env {
        Some(m) => m@,
        None => Map::empty(),
    }
}

/// The union of the selected cells' variables, in dimension order;
/// a later dimension overrides an earlier one on key collision.
pub open spec fn point_env(dims: Seq<Vec<MatrixCell>>, p: Seq<int>) -> Map<Seq<char>, Seq<char>>
    decreases p.len(),
{
    if p.len() == 0 {
        Map::empty()
    } else {
        point_env(dims, p.drop_last()).union_prefer_right(
            cell_env(dims[p.len() - 1]@[p.last()]),
        )
    }
}

/// Copies a point.
fn clone_point(v: &Vec<usize>) -> (r: Vec<usize>)
    ensures
        r@ == v@,
{
    let mut out: Vec<usize> = Vec::new();
    let n = v.len();
    let mut i: usize = 0;
    while i < n
        invariant
            n == v@.len(),
            i <= n,
            out@ == v@.take(i as int),
        decreases n - i,
    {
        proof {
            assert(v@.take(i as int).push(v@[i as int]) =~= v@.take(i as int + 1));
        }
        out.push(v[i]);
        i += 1;
    }
    proof {
        assert(v@.take(n as int) =~= v@);
    }
    out
}

/// Materializes every point of the cartesian product, in order.
fn product_points(dims: &Vec<Vec<MatrixCell>>) -> (r: Vec<Vec<usize>>)
    ensures
        pts_view(r@) == all_points(dims_lens(dims@)),
        forall|i: int| 0 <= i < r@.len() ==> (#[trigger] r@[i])@.len() == dims@.len(),
        forall|i: int, j: int|
            0 <= i < r@.len() && 0 <= j < dims@.len() ==> (#[trigger] r@[i]@[j]) < dims@[j]@.len(),
{
    let mut acc: Vec<Vec<usize>> = Vec::new();
    acc.push(Vec::new());
    proof {
        assert(dims_lens(dims@).take(0) =~= Seq::<nat>::empty());
        assert(pts_view(acc@) =~~= seq![Seq::<int>::empty()]);
    }
    let nd = dims.len();
    let mut d: usize = 0;
    while d < nd
        invariant
            nd == dims@.len(),
            d <= nd,
            pts_view(acc@) == all_points(dims_lens(dims@).take(d as int)),
            forall|i: int| 0 <= i < acc@.len() ==> (#[trigger] acc@[i])@.len() == d,
            forall|i: int, j: int|
                0 <= i < acc@.len() && 0 <= j < d ==> (#[trigger] acc@[i]@[j]) < dims@[j]@.len(),
        decreases nd - d,
    {
        let ghost lens = dims_lens(dims@);
        let ghost k = dims@[d as int]@.len();
        let ghost base = pts_view(acc@);
        let row_len = dims[d].len();
        let mut next: Vec<Vec<usize>> = Vec::new();
        let na = acc.len();
        let mut i: usize = 0;
        proof {
            assert(extend_all(base.take(0), k) =~= Seq::<Seq<int>>::empty()) by {
                assert(base.take(0) =~= Seq::<Seq<int>>::empty());
                assert(Seq::<Seq<int>>::empty().flat_map(
                    |p: Seq<int>| extend_point(p, k),
                ) =~= Seq::<Seq<int>>::empty());
            }
        }
        while i < na
            invariant
                nd == dims@.len(),
                d < nd,
                na == acc@.len(),
                i <= na,
                lens == dims_lens(dims@),
                k == dims@[d as int]@.len(),
                row_len == k,
                base == pts_view(acc@),
                forall|a: int| 0 <= a < acc@.len() ==> (#[trigger] acc@[a])@.len() == d,
                forall|a: int, j: int|
                    0 <= a < acc@.len() && 0 <= j < d ==> (#[trigger] acc@[a]@[j]) < dims@[j]@.len(),
                pts_view(next@) == extend_all(base.take(i as int), k),
                forall|a: int| 0 <= a < next@.len() ==> (#[trigger] next@[a])@.len() == d + 1,
                forall|a: int, j: int|
                    0 <= a < next@.len() && 0 <= j < d + 1 ==> (#[trigger] next@[a]@[j])
                        < dims@[j]@.len(),
            decreases na - i,
        {
            let mut j: usize = 0;
            while j < row_len
                invariant
                    nd == dims@.len(),
                    d < nd,
                    na == acc@.len(),
                    i < na,
                    j <= row_len,
                    lens == dims_lens(dims@),
                    k == dims@[d as int]@.len(),
                    row_len == k,
                    base == pts_view(acc@),
                    forall|a: int| 0 <= a < acc@.len() ==> (#[trigger] acc@[a])@.len() == d,
                    forall|a: int, jj: int|
                        0 <= a < acc@.len() && 0 <= jj < d ==> (#[trigger] acc@[a]@[jj])
                            < dims@[jj]@.len(),
                    pts_view(next@) == extend_all(base.take(i as int), k) + extend_point(
                        base[i as int],
                        k,
                    ).take(j as int),
                    forall|a: int| 0 <= a < next@.len() ==> (#[trigger] next@[a])@.len() == d + 1,
                    forall|a: int, jj: int|
                        0 <= a < next@.len() && 0 <= jj < d + 1 ==> (#[trigger] next@[a]@[jj])
                            < dims@[jj]@.len(),
                decreases row_len - j,
            {
                let mut q = clone_point(&acc[i]);
                q.push(j);
                proof {
                    assert(idx_view(q@) =~= idx_view(acc@[i as int]@).push(j as int));
                    assert(base[i as int] == idx_view(acc@[i as int]@));
                    assert(extend_point(base[i as int], k)[j as int] == base[i as int].push(
                        j as int,
                    ));
                    assert(extend_point(base[i as int], k).take(j as int).push(
                        extend_point(base[i as int], k)[j as int],
                    ) =~= extend_point(base[i as int], k).take(j as int + 1));
                }
                let ghost next0 = next@;
                next.push(q);
                proof {
                    assert(pts_view(next@) =~= pts_view(next0).push(idx_view(q@)));
                    assert(pts_view(next@) =~= extend_all(base.take(i as int), k) + extend_point(
                        base[i as int],
                        k,
                    ).take(j as int + 1));
                }
                j += 1;
            }
            proof {
                assert(extend_point(base[i as int], k).take(k as int) =~= extend_point(
                    base[i as int],
                    k,
                ));
                lemma_extend_all_take(base, k, i as int);
            }
            i += 1;
        }
        acc = next;
        proof {
            assert(base.take(na as int) =~= base);
            assert(lens.take(d as int + 1).drop_last() =~= lens.take(d as int));
            assert(lens.take(d as int + 1).last() == k);
            assert(all_points(lens.take(d as int + 1)) == extend_all(
                all_points(lens.take(d as int)),
                k,
            ));
        }
        d += 1;
    }
    proof {
        assert(dims_lens(dims@).take(nd as int) =~= dims_lens(dims@));
    }
    acc
}

/// Builds the environment of one point: the union of its cells'
/// variables, in dimension order.
fn build_point_env(dims: &Vec<Vec<MatrixCell>>, p: &Vec<usize>) -> (r: EnvMap)
    requires
        p@.len() == dims@.len(),
        forall|j: int| 0 <= j < p@.len() ==> (#[trigger] p@[j]) < dims@[j]@.len(),
        forall|dd: int, c: int|
            0 <= dd < dims@.len() && 0 <= c < (#[trigger] dims@[dd])@.len() ==> (
            #[trigger] dims@[dd]@[c]).wf(),
    ensures
        r.wf(),
        r@ == point_env(dims@, idx_view(p@)),
{
    let mut acc = EnvMap::new();
    let n = p.len();
    let mut i: usize = 0;
    proof {
        assert(idx_view(p@).take(0) =~= Seq::<int>::empty());
    }
    while i < n
        invariant
            n == p@.len(),
            p@.len() == dims@.len(),
            i <= n,
            forall|j: int| 0 <= j < p@.len() ==> (#[trigger] p@[j]) < dims@[j]@.len(),
            forall|dd: int, c: int|
                0 <= dd < dims@.len() && 0 <= c < (#[trigger] dims@[dd])@.len() ==> (
                #[trigger] dims@[dd]@[c]).wf(),
            acc.wf(),
            acc@ == point_env(dims@, idx_view(p@).take(i as int)),
        decreases n - i,
    {
        let cell = &dims[i][p[i]];
        proof {
            let v = idx_view(p@);
            assert(v.take(i as int + 1).drop_last() =~= v.take(i as int));
            assert(v.take(i as int + 1).last() == v[i as int]);
            assert(dims@[i as int]@[v[i as int]] == dims@[i as int]@[p@[i as int] as int]);
        }
        match &cell.env {
            Some(e) => {
                proof {
                    assert(e.wf()) by {
                        assert(dims@[i as int]@[p@[i as int] as int].wf());
                    }
                }
                acc.extend_with(e);
            },
            None => {
                proof {
                    assert(acc@.union_prefer_right(Map::<Seq<char>, Seq<char>>::empty()) =~= acc@);
                }
            },
        }
        i += 1;
    }
    proof {
        assert(idx_view(p@).take(n as int) =~= idx_view(p@));
    }
    acc
}

/// Whether the matrix keeps the point with these coordinates: a dense
/// matrix keeps what its `drop` regex does not match (everything when
/// absent); a sparse one keeps what its `keep` regex matches (nothing
/// when absent).
pub open spec fn kept(m: &Matrix, p: Seq<int>) -> bool {
    match m.spec_filter() {
        Some(f) => if m.is_dense() {
            !regex_match(f@, coord_str(p))
        } else {
            regex_match(f@, coord_str(p))
        },
        None => m.is_dense(),
    }
}

/// The surviving prefix: the first `n` product points that the filter
/// keeps, in order.
pub open spec fn kept_prefix(m: &Matrix, n: int) -> Seq<Seq<int>> {
    all_points(dims_lens(m.spec_dimensions())).take(n).filter(|p: Seq<int>| kept(m, p))
}

/// The surviving points of the full product, in order.
pub open spec fn kept_points(m: &Matrix) -> Seq<Seq<int>> {
    kept_prefix(m, all_points(dims_lens(m.spec_dimensions())).len() as int)
}

/// Taking one more point extends the surviving prefix exactly when the
/// filter keeps that point.
proof fn lemma_kept_prefix_step(m: &Matrix, i: int)
    requires
        0 <= i < all_points(dims_lens(m.spec_dimensions())).len(),
    ensures
        kept(m, all_points(dims_lens(m.spec_dimensions()))[i]) ==> kept_prefix(m, i + 1)
            == kept_prefix(m, i).push(all_points(dims_lens(m.spec_dimensions()))[i]),
        !kept(m, all_points(dims_lens(m.spec_dimensions()))[i]) ==> kept_prefix(m, i + 1)
            == kept_prefix(m, i),
{
    reveal(Seq::filter);
    let all = all_points(dims_lens(m.spec_dimensions()));
    assert(all.take(i + 1).drop_last() =~= all.take(i));
    assert(all.take(i + 1).last() == all[i]);
    if kept(m, all[i]) {
        assert(kept_prefix(m, i + 1) =~= kept_prefix(m, i).push(all[i]));
    } else {
        assert(kept_prefix(m, i + 1) =~= kept_prefix(m, i));
    }
}

impl Matrix {
    /// Expands the matrix: enumerates the full cartesian product of the
    /// dimensions, keeps each point per the filter polarity, and gives
    /// each surviving point its comma-joined coordinates and the union
    /// of its cells' variables.
    pub fn compile(&self) -> (r: Result<Vec<Invocation>, Error>)
        requires
            self.wf(),
        ensures
            r matches Ok(invs) ==> {
                &&& invs@.len() == kept_points(self).len()
                &&& forall|i: int|
                    0 <= i < invs@.len() ==> (#[trigger] invs@[i]).coords@ == coord_str(
                        kept_points(self)[i],
                    ) && invs@[i].env@ == point_env(
                        self.spec_dimensions(),
                        kept_points(self)[i],
                    ) && invs@[i].env.wf()
            },
            self.spec_filter() is None ==> r is Ok,
            r matches Err(e) ==> (e matches Error::RegexError(_)) && self.spec_filter() is Some,
            self.spec_filter() matches Some(f) && !regex_valid(f@) ==> r is Err,
    {
        let dims: &Vec<Vec<MatrixCell>> = match self {
            Matrix::Dense { dimensions, .. } => dimensions,
            Matrix::Sparse { dimensions, .. } => dimensions,
        };
        let filter: &Option<String> = match self {
            Matrix::Dense { drop, .. } => drop,
            Matrix::Sparse { keep, .. } => keep,
        };
        let dense = match self {
            Matrix::Dense { .. } => true,
            Matrix::Sparse { .. } => false,
        };
        let pat: Option<Pattern> = match filter {
            Some(f) => match Pattern::new(f.as_str()) {
                Ok(p) => Some(p),
                Err(e) => {
                    return Err(Error::RegexError(e));
                },
            },
            None => None,
        };
        let points = product_points(dims);
        let total = points.len();
        let mut invs: Vec<Invocation> = Vec::new();
        let ghost all = all_points(dims_lens(self.spec_dimensions()));
        proof {
            reveal(Seq::filter);
            assert(all.take(0).filter(|p: Seq<int>| kept(self, p)) =~= Seq::<Seq<int>>::empty());
        }
        let mut i: usize = 0;
        while i < total
            invariant
                self.wf(),
                dims@ == self.spec_dimensions(),
                *filter == self.spec_filter(),
                dense == self.is_dense(),
                match pat {
                    Some(ref pt) => self.spec_filter() matches Some(f) && pt@ == f@,
                    None => self.spec_filter() is None,
                },
                all == all_points(dims_lens(self.spec_dimensions())),
                pts_view(points@) == all,
                total == points@.len(),
                i <= total,
                forall|a: int| 0 <= a < points@.len() ==> (#[trigger] points@[a])@.len()
                    == dims@.len(),
                forall|a: int, j: int|
                    0 <= a < points@.len() && 0 <= j < dims@.len() ==> (#[trigger] points@[a]@[j])
                        < dims@[j]@.len(),
                invs@.len() == kept_prefix(self, i as int).len(),
                forall|r: int|
                    0 <= r < invs@.len() ==> (#[trigger] invs@[r]).coords@ == coord_str(
                        kept_prefix(self, i as int)[r],
                    ) && invs@[r].env@ == point_env(
                        self.spec_dimensions(),
                        kept_prefix(self, i as int)[r],
                    ) && invs@[r].env.wf(),
            decreases total - i,
        {
            let ghost pt_spec = all[i as int];
            proof {
                assert(pts_view(points@)[i as int] == idx_view(points@[i as int]@));
            }
            let coords = coords_string(&points[i]);
            proof {
                assert(coords@ == coord_str(pt_spec));
            }
            let keep: bool = match &pat {
                Some(p) => {
                    let matched = match p.is_match(coords.as_str()) {
                        Ok(b) => b,
                        Err(e) => {
                            return Err(Error::RegexError(e));
                        },
                    };
                    if dense {
                        !matched
                    } else {
                        matched
                    }
                },
                None => dense,
            };
            proof {
                assert(keep == kept(self, pt_spec));
                lemma_kept_prefix_step(self, i as int);
            }
            if keep {
                let env = build_point_env(dims, &points[i]);
                let ghost invs0 = invs@;
                invs.push(Invocation { coords, env });
                proof {
                    assert(invs@ =~= invs0.push(invs@[invs@.len() - 1]));
                    assert(kept_prefix(self, i as int + 1) == kept_prefix(self, i as int).push(
                        pt_spec,
                    ));
                    assert(kept_prefix(self, i as int + 1)[invs@.len() - 1] == pt_spec);
                    assert forall|r: int| 0 <= r < invs@.len() - 1 implies kept_prefix(
                        self,
                        i as int + 1,
                    )[r] == kept_prefix(self, i as int)[r] by {}
                }
            }
            i += 1;
        }
        proof {
            assert(kept_prefix(self, total as int) == kept_points(self));
        }
        Ok(invs)
    }
}

} // verus!
