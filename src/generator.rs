//! The greedy generator: places touches in the order of a latent field and
//! resolves every pixel that a placement forces.
use vstd::prelude::*;
use crate::brushes::{valid_shape, Brush};
use crate::design::{blank_planes, count_false, lemma_count_false_drops, setup_of, Design, Planes, Setup};
use crate::grid::{all_in_grid, area, flat_index, in_grid, lin};
use crate::consistency::{at, consistent, settled, splittable, symmetric_odd};

verus! {

/// The key of cell `x` in a row-major field with `n` columns.
pub open spec fn key_of(values: Seq<i64>, x: (usize, usize), n: int) -> i64 {
    values[lin(x.0 as int, x.1 as int, n)]
}

/// `s` is in ascending order of key.
pub open spec fn sorted_by_key(s: Seq<(usize, usize)>, values: Seq<i64>, n: int) -> bool {
    forall|a: int, b: int| 0 <= a <= b < s.len() ==> key_of(values, s[a], n) <= key_of(values, s[b], n)
}

proof fn lemma_swap_multiset<A>(s: Seq<A>, i: int, j: int)
    requires
        0 <= i < s.len(),
        0 <= j < s.len(),
    ensures
        s.update(i, s[j]).update(j, s[i]).to_multiset() =~= s.to_multiset(),
{
    broadcast use vstd::seq_lib::group_to_multiset_ensures, vstd::multiset::group_multiset_properties;
    let t = s.update(i, s[j]);
    assert(t.to_multiset() == s.to_multiset().insert(s[j]).remove(s[i]));
    assert(t.update(j, s[i]).to_multiset() == t.to_multiset().insert(s[i]).remove(t[j]));
    if i == j {
        assert(s.update(i, s[j]).update(j, s[i]) =~= s);
    } else {
        assert(t[j] == s[j]);
    }
}

/// `s` with `x` inserted after the last cell whose key is at most `x`'s.
pub open spec fn insert_by_key(s: Seq<(usize, usize)>, x: (usize, usize), values: Seq<i64>, n: int) -> Seq<(usize, usize)>
    decreases s.len(),
{
    if s.len() == 0 {
        seq![x]
    } else if key_of(values, s.last(), n) > key_of(values, x, n) {
        insert_by_key(s.drop_last(), x, values, n).push(s.last())
    } else {
        s.push(x)
    }
}

/// The stable ascending sort of `s` by key: insertion of each cell in turn.
pub open spec fn stable_sorted(s: Seq<(usize, usize)>, values: Seq<i64>, n: int) -> Seq<(usize, usize)>
    decreases s.len(),
{
    if s.len() == 0 {
        s
    } else {
        insert_by_key(stable_sorted(s.drop_last(), values, n), s.last(), values, n)
    }
}

proof fn lemma_insert_at(s: Seq<(usize, usize)>, x: (usize, usize), values: Seq<i64>, n: int, j: int)
    requires
        0 <= j <= s.len(),
        forall|y: int| j <= y < s.len() ==> key_of(values, #[trigger] s[y], n) > key_of(values, x, n),
        j == 0 || key_of(values, s[j - 1], n) <= key_of(values, x, n),
    ensures
        insert_by_key(s, x, values, n) == s.take(j) + seq![x] + s.subrange(j, s.len() as int),
    decreases s.len(),
{
    if s.len() == 0 {
        assert(s.take(j) + seq![x] + s.subrange(j, s.len() as int) =~= seq![x]);
    } else if j == s.len() {
        assert(s.take(j) + seq![x] + s.subrange(j, s.len() as int) =~= s.push(x));
    } else {
        let d = s.drop_last();
        assert forall|y: int| j <= y < d.len() implies key_of(values, #[trigger] d[y], n) > key_of(values, x, n) by {
            assert(d[y] == s[y]);
        }
        lemma_insert_at(d, x, values, n, j);
        assert(s.last() == s[s.len() - 1]);
        assert((d.take(j) + seq![x] + d.subrange(j, d.len() as int)).push(s.last()) =~= s.take(j) + seq![x] + s.subrange(
            j,
            s.len() as int,
        ));
    }
}

/// Sorts `indices` in ascending order of `values` at each cell, keeping the
/// order of cells with equal values.
pub fn sort_indices_by_value(indices: &mut Vec<(usize, usize)>, values: &Vec<i64>, shape: (usize, usize))
    requires
        all_in_grid(old(indices)@, shape),
        values@.len() == area(shape),
        area(shape) <= usize::MAX,
    ensures
        final(indices)@.to_multiset() == old(indices)@.to_multiset(),
        final(indices)@.len() == old(indices)@.len(),
        sorted_by_key(final(indices)@, values@, shape.1 as int),
        all_in_grid(final(indices)@, shape),
        final(indices)@ == stable_sorted(old(indices)@, values@, shape.1 as int),
{
    let ghost orig = indices@;
    let n = shape.1;
    let len = indices.len();
    let mut i: usize = 1;
    if len == 0 {
        assert(orig =~= stable_sorted(orig, values@, n as int));
        return;
    }
    assert(orig.take(1).drop_last() =~= orig.take(0));
    assert(stable_sorted(orig.take(0), values@, n as int) == orig.take(0));
    assert(orig.take(1).last() == orig[0]);
    assert(insert_by_key(orig.take(0), orig[0], values@, n as int) == seq![orig[0]]);
    assert(indices@.take(1) =~= stable_sorted(orig.take(1), values@, n as int));
    while i < len
        invariant
            1 <= i <= len,
            len == indices@.len(),
            n == shape.1,
            values@.len() == area(shape),
            area(shape) <= usize::MAX,
            all_in_grid(indices@, shape),
            indices@.to_multiset() == old(indices)@.to_multiset(),
            sorted_by_key(indices@.take(i as int), values@, n as int),
            orig == old(indices)@,
            orig.len() == len,
            indices@.take(i as int) == stable_sorted(orig.take(i as int), values@, n as int),
            forall|y: int| i <= y < len ==> indices@[y] == orig[y],
        decreases len - i,
    {
        let ghost pre = indices@.take(i as int);
        let ghost x = orig[i as int];
        let mut j: usize = i;
        assert forall|a: int, b: int| 0 <= a <= b <= i && a != j && b != j implies key_of(values@, indices@[a], n as int) <= key_of(values@, indices@[b], n as int) by {
            assert(indices@.take(i as int)[a] == indices@[a]);
            assert(indices@.take(i as int)[b] == indices@[b]);
        }
        while j > 0 && values[flat_index(indices[j - 1], shape)] > values[flat_index(indices[j], shape)]
            invariant
                0 <= j <= i < len,
                len == indices@.len(),
                n == shape.1,
                values@.len() == area(shape),
                area(shape) <= usize::MAX,
                all_in_grid(indices@, shape),
                indices@.to_multiset() == old(indices)@.to_multiset(),
                // the first i + 1 cells, but for the one at j, are sorted
                forall|a: int, b: int|
                    0 <= a <= b <= i && a != j && b != j ==> key_of(values@, indices@[a], n as int) <= key_of(values@, indices@[b], n as int),
                // the moving cell is below everything after it
                forall|b: int| j < b <= i ==> key_of(values@, indices@[j as int], n as int) < key_of(values@, indices@[b], n as int),
                pre.len() == i,
                indices@[j as int] == x,
                forall|y: int| 0 <= y < j ==> indices@[y] == pre[y],
                forall|y: int| j < y <= i ==> indices@[y] == pre[y - 1],
                forall|y: int| i < y < len ==> indices@[y] == orig[y],
            decreases j,
        {
            proof {
                lemma_swap_multiset(indices@, j as int - 1, j as int);
            }
            let a = indices[j - 1];
            let b = indices[j];
            indices.set(j - 1, b);
            indices.set(j, a);
            j = j - 1;
        }
        proof {
            assert forall|y: int| j <= y < pre.len() implies key_of(values@, #[trigger] pre[y], n as int) > key_of(values@, x, n as int) by {
                assert(indices@[y + 1] == pre[y]);
            }
            if j > 0 {
                assert(indices@[j - 1] == pre[j - 1]);
            }
            lemma_insert_at(pre, x, values@, n as int, j as int);
            assert(indices@.take(i + 1) =~= pre.take(j as int) + seq![x] + pre.subrange(j as int, pre.len() as int));
            assert(orig.take(i + 1).drop_last() =~= orig.take(i as int));
            assert(orig.take(i + 1).last() == x);
            assert forall|a: int, b: int| 0 <= a <= b < i + 1 implies #[trigger] key_of(values@, indices@.take(i + 1)[a], n as int) <= #[trigger] key_of(
                values@,
                indices@.take(i + 1)[b],
                n as int,
            ) by {
                assert(indices@.take(i + 1)[a] == indices@[a]);
                assert(indices@.take(i + 1)[b] == indices@[b]);
                if b == j && a < b {
                    let c = j - 1;
                    assert(key_of(values@, indices@[c], n as int) <= key_of(values@, indices@[j as int], n as int));
                    assert(key_of(values@, indices@[a], n as int) <= key_of(values@, indices@[c], n as int));
                }
            }
        }
        i = i + 1;
    }
    assert(indices@.take(len as int) =~= indices@);
    assert(orig.take(len as int) =~= orig);
}


/// A void touch at `t` on planes `p` (see `Setup::void_touch`), unless a
/// void touch there is invalid or already placed: then nothing changes and
/// nothing is returned.
pub open spec fn void_step_model(st: Setup, p: Planes, t: (usize, usize)) -> (Planes, Seq<(usize, usize)>, Seq<(usize, usize)>) {
    let k = at(t, st.shape);
    if p.void_touch_invalid[k] || p.void_touch_existing[k] {
        (p, seq![], seq![])
    } else {
        st.void_touch(p, t)
    }
}

/// The state of the resolving loop: the planes, the latest required
/// pixels, and the touches that would resolve them.
pub struct ResolveState {
    pub planes: Planes,
    pub required: Seq<(usize, usize)>,
    pub resolving: Seq<(usize, usize)>,
}

/// Some pixel of `req` is still void-required.
pub open spec fn any_required_in(p: Planes, req: Seq<(usize, usize)>, n: int) -> bool {
    exists|x: int| 0 <= x < req.len() && #[trigger] p.void_pixel_required[lin(req[x].0 as int, req[x].1 as int, n)]
}

/// One round of the resolving loop: sort the resolving touches by key; stop
/// when no required pixel is left or no touch is; otherwise take a void
/// step at the touch with the largest key and continue from what it returns.
pub open spec fn resolve_step(st: Setup, keys: Seq<i64>, s: ResolveState) -> (bool, ResolveState) {
    let n = st.shape.1 as int;
    let sorted = stable_sorted(s.resolving, keys, n);
    if !any_required_in(s.planes, s.required, n) || sorted.len() == 0 {
        (false, ResolveState { resolving: sorted, ..s })
    } else {
        let r = void_step_model(st, s.planes, sorted.last());
        (true, ResolveState { planes: r.0, required: r.1, resolving: stable_sorted(r.2, keys, n) })
    }
}

/// The resolving loop run for at most `fuel` rounds.
pub open spec fn resolve_run(st: Setup, keys: Seq<i64>, s: ResolveState, fuel: nat) -> ResolveState
    decreases fuel,
{
    let (cont, next) = resolve_step(st, keys, s);
    if cont && fuel > 0 {
        resolve_run(st, keys, next, (fuel - 1) as nat)
    } else {
        next
    }
}

/// Rounds enough for the resolving loop on a grid of the given shape: each
/// round places a touch, or ends with nothing left to resolve.
pub open spec fn resolve_fuel(shape: (usize, usize)) -> nat {
    (2 * area(shape) + 2) as nat
}

/// A void touch at `pos`, unless a void touch there is invalid or already
/// placed, in which case nothing changes and nothing is returned.
pub fn void_step(design: &mut Design, pos: (usize, usize)) -> (r: (Vec<(usize, usize)>, Vec<(usize, usize)>))
    requires
        old(design).wf(),
        in_grid(pos.0 as int, pos.1 as int, old(design).shape),
    ensures
        final(design).wf(),
        final(design).same_setup(old(design)),
        all_in_grid(r.0@, old(design).shape),
        all_in_grid(r.1@, old(design).shape),
        (final(design).planes(), r.0@, r.1@) == void_step_model(old(design).setup(), old(design).planes(), pos),
        old(design).setup().law_ready() && consistent(old(design).setup(), old(design).planes()) ==> consistent(
            final(design).setup(),
            final(design).planes(),
        ),
        old(design).setup().law_ready() && splittable(old(design).brush.brush@) && consistent(old(design).setup(), old(design).planes())
            && settled(old(design).setup(), old(design).planes()) ==> settled(final(design).setup(), final(design).planes()),
        ({
            let k = lin(pos.0 as int, pos.1 as int, old(design).shape.1 as int);
            if old(design).void_touch_invalid@[k] || old(design).void_touch_existing@[k] {
                final(design).planes() == old(design).planes() && r.0@.len() == 0 && r.1@.len() == 0
            } else {
                (final(design).planes(), r.0@, r.1@) == old(design).setup().void_touch(old(design).planes(), pos)
            }
        }),
{
    let k = flat_index(pos, design.shape);
    if design.void_touch_invalid[k] || design.void_touch_existing[k] {
        return (Vec::new(), Vec::new());
    }
    design.add_void_touch(pos)
}

/// Whether some pixel of `pixels` is still void-required.
fn any_required(pixels: &Vec<(usize, usize)>, void_pixel_required: &Vec<bool>, shape: (usize, usize)) -> (r: bool)
    requires
        all_in_grid(pixels@, shape),
        void_pixel_required@.len() == area(shape),
        area(shape) <= usize::MAX,
    ensures
        r == exists|x: int| 0 <= x < pixels@.len() && #[trigger] void_pixel_required@[lin(pixels@[x].0 as int, pixels@[x].1 as int, shape.1 as int)],
{
    let mut x: usize = 0;
    while x < pixels.len()
        invariant
            x <= pixels@.len(),
            all_in_grid(pixels@, shape),
            void_pixel_required@.len() == area(shape),
            area(shape) <= usize::MAX,
            forall|y: int| 0 <= y < x ==> !#[trigger] void_pixel_required@[lin(pixels@[y].0 as int, pixels@[y].1 as int, shape.1 as int)],
        decreases pixels@.len() - x,
    {
        if void_pixel_required[flat_index(pixels[x], shape)] {
            return true;
        }
        x = x + 1;
    }
    false
}

/// Places the resolving touches with the smallest latent key first, until
/// no pixel of the latest required set is still void-required or no
/// resolving touch is left.
pub fn resolve_required_void_pixels(
    design: &mut Design,
    required_pixels: &mut Vec<(usize, usize)>,
    resolving_touches: &mut Vec<(usize, usize)>,
    void_latent_t: &Vec<i64>,
)
    requires
        old(design).wf(),
        all_in_grid(old(required_pixels)@, old(design).shape),
        all_in_grid(old(resolving_touches)@, old(design).shape),
        void_latent_t@.len() == area(old(design).shape),
    ensures
        final(design).wf(),
        final(design).same_setup(old(design)),
        old(design).setup().law_ready() && consistent(old(design).setup(), old(design).planes()) ==> consistent(
            final(design).setup(),
            final(design).planes(),
        ),
        old(design).setup().law_ready() && splittable(old(design).brush.brush@) && consistent(old(design).setup(), old(design).planes())
            && settled(old(design).setup(), old(design).planes()) ==> settled(final(design).setup(), final(design).planes()),
        (ResolveState { planes: final(design).planes(), required: final(required_pixels)@, resolving: final(resolving_touches)@ })
            == resolve_run(
            old(design).setup(),
            void_latent_t@,
            ResolveState { planes: old(design).planes(), required: old(required_pixels)@, resolving: old(resolving_touches)@ },
            resolve_fuel(old(design).shape),
        ),
        final(resolving_touches)@.len() == 0 || forall|x: int|
            0 <= x < final(required_pixels)@.len() ==> !#[trigger] final(design).void_pixel_required@[at(
                final(required_pixels)@[x],
                old(design).shape,
            )],
        forall|k: int|
            0 <= k < area(old(design).shape) && #[trigger] old(design).void_touch_existing@[k] ==> final(design).void_touch_existing@[k],
{
    let shape = design.shape;
    let ghost st = design.setup();
    let ghost keys = void_latent_t@;
    let ghost n = shape.1 as int;
    let ghost start = ResolveState { planes: design.planes(), required: required_pixels@, resolving: resolving_touches@ };
    let ghost mut fuel: nat = resolve_fuel(shape);
    proof {
        crate::design::lemma_count_false_bound(design.void_touch_existing@);
    }
    loop
        invariant_except_break
            fuel >= 2 * count_false(design.void_touch_existing@) + (if required_pixels@.len() > 0 { 1int } else { 0int }) + 1,
            resolve_run(st, keys, ResolveState { planes: design.planes(), required: required_pixels@, resolving: resolving_touches@ }, fuel)
                == resolve_run(st, keys, start, resolve_fuel(shape)),
        invariant
            design.wf(),
            design.same_setup(old(design)),
            old(design).setup().law_ready() && consistent(old(design).setup(), old(design).planes()) ==> consistent(
                design.setup(),
                design.planes(),
            ),
            old(design).setup().law_ready() && splittable(old(design).brush.brush@) && consistent(old(design).setup(), old(design).planes())
                && settled(old(design).setup(), old(design).planes()) ==> settled(design.setup(), design.planes()),
            shape == design.shape,
            all_in_grid(required_pixels@, shape),
            all_in_grid(resolving_touches@, shape),
            void_latent_t@.len() == area(shape),
            st == design.setup(),
            keys == void_latent_t@,
            n == shape.1 as int,
            forall|k: int| 0 <= k < area(shape) && #[trigger] old(design).void_touch_existing@[k] ==> design.void_touch_existing@[k],
        ensures
            resolving_touches@.len() == 0 || !any_required_in(design.planes(), required_pixels@, n),
            (ResolveState { planes: design.planes(), required: required_pixels@, resolving: resolving_touches@ })
                == resolve_run(st, keys, start, resolve_fuel(shape)),
        decreases count_false(design.void_touch_existing@), if required_pixels@.len() > 0 { 1int } else { 0int },
    {
        let ghost cur = ResolveState { planes: design.planes(), required: required_pixels@, resolving: resolving_touches@ };
        sort_indices_by_value(resolving_touches, void_latent_t, shape);
        if !any_required(required_pixels, &design.void_pixel_required, shape) {
            break;
        }
        let (ir, jr) = match resolving_touches.pop() {
            None => {
                break;
            },
            Some(idxs) => idxs,
        };
        let ghost before = design.planes();
        let ghost k = lin(ir as int, jr as int, shape.1 as int);
        assert(resolve_step(st, keys, cur).0);
        let (mut new_required_pixels, mut new_resolving_touches) = void_step(design, (ir, jr));
        proof {
            crate::grid::lemma_lin_bounds(ir as int, jr as int, shape);
            if !(before.void_touch_invalid[k] || before.void_touch_existing[k]) {
                design.setup().lemma_void_touch_records(before, (ir, jr));
                lemma_count_false_drops(before.void_touch_existing, design.void_touch_existing@, k);
            }
            crate::design::lemma_count_false_bound(design.void_touch_existing@);
        }
        std::mem::swap(required_pixels, &mut new_required_pixels);
        std::mem::swap(resolving_touches, &mut new_resolving_touches);
        sort_indices_by_value(resolving_touches, void_latent_t, shape);
        proof {
            assert(resolve_step(st, keys, cur).1 == ResolveState { planes: design.planes(), required: required_pixels@, resolving: resolving_touches@ });
            fuel = (fuel - 1) as nat;
        }
    }
}


/// How many more rounds the generator can spend choosing the same cell
/// before its fixed-point check stops it, when only one queue holds cells.
pub open spec fn stall(
    void_queue: Seq<(usize, usize)>,
    solid_queue: Seq<(usize, usize)>,
    prev: ((usize, usize), (usize, usize)),
    indexer: usize,
) -> int {
    if (void_queue.len() > 0) == (solid_queue.len() > 0) {
        0
    } else {
        let x = if void_queue.len() > 0 { void_queue.last() } else { solid_queue.last() };
        let next = if indexer == 0 { prev.0 } else { prev.1 };
        let other = if indexer == 0 { prev.1 } else { prev.0 };
        if next == x && other == x {
            1
        } else if other == x {
            2
        } else {
            3
        }
    }
}

/// Every cell of the grid, in row-major order.
fn all_cells(shape: (usize, usize)) -> (r: Vec<(usize, usize)>)
    requires
        area(shape) <= usize::MAX,
    ensures
        r@.len() == area(shape),
        all_in_grid(r@, shape),
        forall|k: int| 0 <= k < r@.len() ==> lin((#[trigger] r@[k]).0 as int, r@[k].1 as int, shape.1 as int) == k,
        r@ == grid_cells(shape),
{
    let (m, n) = shape;
    let mut r: Vec<(usize, usize)> = Vec::new();
    let mut i: usize = 0;
    while i < m
        invariant
            i <= m,
            shape == (m, n),
            area(shape) <= usize::MAX,
            r@.len() == i * n,
            all_in_grid(r@, shape),
            forall|k: int| 0 <= k < r@.len() ==> lin((#[trigger] r@[k]).0 as int, r@[k].1 as int, n as int) == k,
        decreases m - i,
    {
        let mut j: usize = 0;
        while j < n
            invariant
                i < m,
                j <= n,
                shape == (m, n),
                area(shape) <= usize::MAX,
                r@.len() == i * n + j,
                all_in_grid(r@, shape),
                forall|k: int| 0 <= k < r@.len() ==> lin((#[trigger] r@[k]).0 as int, r@[k].1 as int, n as int) == k,
            decreases n - j,
        {
            r.push((i, j));
            j = j + 1;
        }
        proof {
            crate::brushes::lemma_next_row(i as int, n as int);
        }
        i = i + 1;
    }
    assert forall|k: int| 0 <= k < r@.len() implies #[trigger] r@[k] == grid_cells(shape)[k] by {
        vstd::arithmetic::div_mod::lemma_fundamental_div_mod_converse(k, n as int, r@[k].0 as int, r@[k].1 as int);
    }
    assert(r@ =~= grid_cells(shape));
    r
}

/// The latent keys widened, and negated when `negate` is set.
fn signed_keys(latent_t: &Vec<i32>, negate: bool) -> (r: Vec<i64>)
    ensures
        r@.len() == latent_t@.len(),
        forall|k: int| 0 <= k < r@.len() ==> #[trigger] r@[k] == if negate { -latent_t@[k] } else { latent_t@[k] as int },
{
    let mut r: Vec<i64> = Vec::new();
    let mut k: usize = 0;
    while k < latent_t.len()
        invariant
            k <= latent_t@.len(),
            r@.len() == k,
            forall|q: int| 0 <= q < r@.len() ==> #[trigger] r@[q] == if negate { -latent_t@[q] } else { latent_t@[q] as int },
        decreases latent_t@.len() - k,
    {
        let l = latent_t[k] as i64;
        r.push(if negate { -l } else { l });
        k = k + 1;
    }
    r
}

/// The cells of a grid in row-major order.
pub open spec fn grid_cells(shape: (usize, usize)) -> Seq<(usize, usize)> {
    Seq::new(area(shape) as nat, |k: int| ((k / shape.1 as int) as usize, (k % shape.1 as int) as usize))
}

/// The latent keys, widened and negated: large values prefer void.
pub open spec fn void_keys_of(latent: Seq<i32>) -> Seq<i64> {
    Seq::new(latent.len(), |k: int| (-latent[k]) as i64)
}

/// The latent keys, widened: large values prefer solid.
pub open spec fn solid_keys_of(latent: Seq<i32>) -> Seq<i64> {
    Seq::new(latent.len(), |k: int| latent[k] as i64)
}

/// The state of the generator's main loop: the planes, the two queues,
/// and the last two cells chosen with the slot to write next.
pub struct GenState {
    pub planes: Planes,
    pub void_queue: Seq<(usize, usize)>,
    pub solid_queue: Seq<(usize, usize)>,
    pub prev: ((usize, usize), (usize, usize)),
    pub indexer: usize,
}

/// One round of the main loop: take the last cell of each queue (one queue
/// standing in for an empty other), keep the one of stronger preference and
/// put the other back; stop when both queues are empty or the same cell was
/// chosen three times running; otherwise, in the frame of the chosen
/// polarity, place a void step there unless its centre is invalid or
/// taken, and resolve what it forces in the order of that polarity's keys.
pub open spec fn gen_step(st: Setup, vk: Seq<i64>, sk: Seq<i64>, s: GenState) -> (bool, GenState) {
    let n = st.shape.1 as int;
    let vq = s.void_queue;
    let sq = s.solid_queue;
    if vq.len() == 0 && sq.len() == 0 {
        (false, s)
    } else {
        let ijv = if vq.len() > 0 { vq.last() } else { sq.last() };
        let ijs = if sq.len() > 0 { sq.last() } else { vq.last() };
        let vq1 = if vq.len() > 0 { vq.drop_last() } else { vq };
        let sq1 = if sq.len() > 0 { sq.drop_last() } else { sq };
        let solid = key_of(sk, ijs, n) > key_of(vk, ijv, n);
        let t = if solid { ijs } else { ijv };
        let vq2 = if solid { vq1.push(ijv) } else { vq1 };
        let sq2 = if solid { sq1 } else { sq1.push(ijs) };
        if s.prev.0 == t && s.prev.1 == t {
            (false, GenState { void_queue: vq2, solid_queue: sq2, ..s })
        } else {
            let prev = if s.indexer == 0 { (t, s.prev.1) } else { (s.prev.0, t) };
            let frame = if solid { s.planes.inverted() } else { s.planes };
            let keys = if solid { sk } else { vk };
            let k = at(t, st.shape);
            let done = if frame.void_touch_invalid[k] || frame.void_touch_existing[k] {
                frame
            } else {
                let r = st.void_touch(frame, t);
                resolve_run(st, keys, ResolveState { planes: r.0, required: r.1, resolving: r.2 }, resolve_fuel(st.shape)).planes
            };
            let planes = if solid { done.inverted() } else { done };
            (true, GenState { planes, void_queue: vq2, solid_queue: sq2, prev, indexer: ((s.indexer + 1) % 2) as usize })
        }
    }
}

/// The main loop run for at most `fuel` rounds.
pub open spec fn gen_run(st: Setup, vk: Seq<i64>, sk: Seq<i64>, s: GenState, fuel: nat) -> GenState
    decreases fuel,
{
    let (cont, next) = gen_step(st, vk, sk, s);
    if cont && fuel > 0 {
        gen_run(st, vk, sk, next, (fuel - 1) as nat)
    } else {
        next
    }
}

/// The planes that the generator builds from a grid shape, one latent key
/// per cell and a brush: the main loop run from a blank design with both
/// queues sorted by key, for as many rounds as it can take.
pub open spec fn generation(shape: (usize, usize), latent: Seq<i32>, b: Seq<(i32, i32)>, bs: (usize, usize)) -> Planes {
    let st = setup_of(shape, b, bs);
    let vk = void_keys_of(latent);
    let sk = solid_keys_of(latent);
    let n = shape.1 as int;
    let start = GenState {
        planes: blank_planes(area(shape)),
        void_queue: stable_sorted(grid_cells(shape), vk, n),
        solid_queue: stable_sorted(grid_cells(shape), sk, n),
        prev: (shape, shape),
        indexer: 0,
    };
    gen_run(st, vk, sk, start, (8 * area(shape) + 4) as nat).planes
}

/// Builds a design greedily from a latent field: `latent_t` holds one key
/// per cell, ordered as the latent values are (negative keys prefer void,
/// positive keys prefer solid, the magnitude gives the priority).
pub fn generate_feasible_design(shape: (usize, usize), latent_t: &Vec<i32>, brush: Brush) -> (design: Design)
    requires
        valid_shape(shape),
        latent_t@.len() == area(shape),
        brush.wf(),
        brush.shape.0 >= 1,
        brush.shape.1 >= 1,
    ensures
        design.wf(),
        design.shape == shape,
        design.brush.brush@ == brush.brush@,
        design.brush.shape == brush.shape,
        design.planes() == generation(shape, latent_t@, brush.brush@, brush.shape),
        symmetric_odd(brush.brush@, brush.shape) ==> consistent(design.setup(), design.planes()),
        symmetric_odd(brush.brush@, brush.shape) && splittable(brush.brush@) ==> settled(design.setup(), design.planes()),
{
    let (m, n) = shape;
    let mut void_latent_t = signed_keys(latent_t, true);
    let mut solid_latent_t = signed_keys(latent_t, false);
    let ghost vk = void_latent_t@;
    let ghost sk = solid_latent_t@;
    assert(vk =~= void_keys_of(latent_t@));
    assert(sk =~= solid_keys_of(latent_t@));
    let ghost b = brush.brush@;
    let ghost bs = brush.shape;
    let mut design = Design::new(shape, brush);
    let ghost st = design.setup();
    let mut solid_indices = all_cells(shape);
    sort_indices_by_value(&mut solid_indices, &solid_latent_t, shape);
    let mut void_indices = all_cells(shape);
    sort_indices_by_value(&mut void_indices, &void_latent_t, shape);
    let mut prev0: (usize, usize) = (m, n);
    let mut prev1: (usize, usize) = (m, n);
    let mut prev_indexer: usize = 0;
    let ghost start = GenState {
        planes: design.planes(),
        void_queue: void_indices@,
        solid_queue: solid_indices@,
        prev: (prev0, prev1),
        indexer: prev_indexer,
    };
    let ghost mut fuel: nat = (8 * area(shape) + 4) as nat;
    loop
        invariant_except_break
            fuel >= 4 * (void_indices@.len() + solid_indices@.len()) + stall(void_indices@, solid_indices@, (prev0, prev1), prev_indexer) + 1,
            gen_run(st, vk, sk, GenState {
                planes: design.planes(),
                void_queue: void_indices@,
                solid_queue: solid_indices@,
                prev: (prev0, prev1),
                indexer: prev_indexer,
            }, fuel) == gen_run(st, vk, sk, start, (8 * area(shape) + 4) as nat),
        invariant
            design.wf(),
            design.shape == shape,
            design.brush.brush@ == b,
            design.brush.shape == bs,
            st == design.setup(),
            st == setup_of(shape, b, bs),
            symmetric_odd(b, bs) ==> design.setup().law_ready() && consistent(design.setup(), design.planes()),
            symmetric_odd(b, bs) && splittable(b) ==> settled(design.setup(), design.planes()),
            shape == (m, n),
            valid_shape(shape),
            void_latent_t@ == vk,
            solid_latent_t@ == sk,
            vk.len() == area(shape),
            sk.len() == area(shape),
            all_in_grid(void_indices@, shape),
            all_in_grid(solid_indices@, shape),
            prev_indexer < 2,
        ensures
            design.planes() == gen_run(st, vk, sk, start, (8 * area(shape) + 4) as nat).planes,
        decreases 4 * (void_indices@.len() + solid_indices@.len()) + stall(void_indices@, solid_indices@, (prev0, prev1), prev_indexer),
    {
        let ghost cur = GenState {
            planes: design.planes(),
            void_queue: void_indices@,
            solid_queue: solid_indices@,
            prev: (prev0, prev1),
            indexer: prev_indexer,
        };
        let ghost vq = void_indices@;
        let ghost sq = solid_indices@;
        let ijv = void_indices.pop();
        let ijs = solid_indices.pop();
        let (ijv, ijs) = match (ijv, ijs) {
            (None, None) => {
                break;
            },
            (Some(ijv), None) => (ijv, ijv),
            (None, Some(ijs)) => (ijs, ijs),
            (Some(ijv), Some(ijs)) => (ijv, ijs),
        };
        let latent_v = void_latent_t[flat_index(ijv, shape)];
        let latent_s = solid_latent_t[flat_index(ijs, shape)];
        let is_solid_touch = latent_s > latent_v;
        let (i, j) = if is_solid_touch {
            void_indices.push(ijv);
            ijs
        } else {
            solid_indices.push(ijs);
            ijv
        };
        proof {
            if vq.len() > 0 && sq.len() == 0 {
                assert(void_indices@.len() + solid_indices@.len() == vq.len());
            }
            if vq.len() == 0 && sq.len() > 0 {
                assert(void_indices@.len() + solid_indices@.len() == sq.len());
            }
        }
        let ghost step = gen_step(st, vk, sk, cur);
        assert(step.1.void_queue == void_indices@ && step.1.solid_queue == solid_indices@);
        if prev0.0 == i && prev0.1 == j && prev1.0 == i && prev1.1 == j {
            assert(!step.0);
            break;
        } else {
            if prev_indexer == 0 {
                prev0 = (i, j);
            } else {
                prev1 = (i, j);
            }
            prev_indexer = (prev_indexer + 1) % 2;
        }
        assert(step.0 && step.1.prev == (prev0, prev1) && step.1.indexer == prev_indexer);
        let ghost frame = if is_solid_touch { cur.planes.inverted() } else { cur.planes };
        if is_solid_touch {
            design.invert();
            std::mem::swap(&mut solid_latent_t, &mut void_latent_t);
        }
        assert(design.planes() == frame);
        let k = flat_index((i, j), shape);
        let void_touch_possible = !(design.void_touch_invalid[k] || design.void_touch_existing[k]);
        if !void_touch_possible {
            if is_solid_touch {
                design.invert();
                std::mem::swap(&mut solid_latent_t, &mut void_latent_t);
            }
            proof {
                crate::design::lemma_invert_twice(cur.planes);
                assert(design.planes() == step.1.planes);
                fuel = (fuel - 1) as nat;
            }
            continue;
        }
        let (mut required_pixels, mut resolving_touches) = void_step(&mut design, (i, j));
        resolve_required_void_pixels(&mut design, &mut required_pixels, &mut resolving_touches, &void_latent_t);
        if is_solid_touch {
            design.invert();
            std::mem::swap(&mut solid_latent_t, &mut void_latent_t);
        }
        proof {
            assert(design.planes() == step.1.planes);
            fuel = (fuel - 1) as nat;
        }
    }
    design
}

} // verus!


