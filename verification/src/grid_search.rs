//! Backtracking enumeration of word squares: grids whose rows and
//! columns, read in order, are all stored words of length equal to the
//! grid size.

use vstd::prelude::*;

use crate::error::WordSquareError;
use crate::prefix_dict::PrefixDictionary;

verus! {

/// Coordinate `(cx, cy)` is visited strictly before `(qx, qy)`: grids are
/// filled by ascending column + row sum, and by ascending column within
/// one diagonal.
pub open spec fn prior(cx: int, cy: int, qx: int, qy: int) -> bool {
    cx + cy < qx + qy || (cx + cy == qx + qy && cx < qx)
}

/// The coordinate visited after `(x, y)` on an `n` by `n` grid, or `None`
/// after the last one.
pub open spec fn next_coord_spec(x: int, y: int, n: int) -> Option<(int, int)> {
    if y != 0 && x + 1 != n {
        Some((x + 1, y - 1))
    } else if y == 0 && x + 1 != n {
        Some((0, x + 1))
    } else if x + 1 == n && y + 1 != n {
        Some((y + 1, n - 1))
    } else {
        None
    }
}

/// The successor is the immediate next coordinate in the traversal order:
/// it comes strictly later, and the coordinates before it are exactly the
/// current one and those before the current one. `None` comes only at the
/// final coordinate.
pub proof fn lemma_next_coord_props(x: int, y: int, n: int)
    requires
        0 <= x < n,
        0 <= y < n,
    ensures
        match next_coord_spec(x, y, n) {
            Some(q) => {
                &&& 0 <= q.0 < n && 0 <= q.1 < n
                &&& prior(x, y, q.0, q.1)
                &&& forall|cx: int, cy: int|
                    0 <= cx < n && 0 <= cy < n ==> (prior(cx, cy, q.0, q.1) <==> (prior(
                        cx,
                        cy,
                        x,
                        y,
                    ) || (cx == x && cy == y)))
            },
            None => x == n - 1 && y == n - 1,
        },
{
    match next_coord_spec(x, y, n) {
        Some(q) => {
            assert forall|cx: int, cy: int| 0 <= cx < n && 0 <= cy < n implies (prior(
                cx,
                cy,
                q.0,
                q.1,
            ) <==> (prior(cx, cy, x, y) || (cx == x && cy == y))) by {}
        },
        None => {},
    }
}

/// The mathematical content of a partial grid.
pub open spec fn grid_view(g: Vec<Vec<Option<char>>>) -> Seq<Seq<Option<char>>> {
    Seq::new(g@.len(), |r: int| g@[r]@)
}

/// An `n` by `n` matrix of optional symbols.
pub open spec fn grid_dims(g: Seq<Seq<Option<char>>>, n: int) -> bool {
    &&& g.len() == n
    &&& forall|r: int| 0 <= r < n ==> (#[trigger] g[r]).len() == n
}

/// The filled cells are exactly the ones visited before `(qx, qy)`.
pub open spec fn partial_ok(g: Seq<Seq<Option<char>>>, n: int, qx: int, qy: int) -> bool {
    &&& grid_dims(g, n)
    &&& forall|cx: int, cy: int|
        0 <= cx < n && 0 <= cy < n ==> (#[trigger] g[cy][cx] is Some <==> prior(
            cx,
            cy,
            qx,
            qy,
        ))
}

/// The first `len` symbols of row `r`.
pub open spec fn row_pref(g: Seq<Seq<Option<char>>>, r: int, len: int) -> Seq<char> {
    Seq::new(len as nat, |c: int| g[r][c].unwrap())
}

/// The first `len` symbols of column `c`.
pub open spec fn col_pref(g: Seq<Seq<Option<char>>>, c: int, len: int) -> Seq<char> {
    Seq::new(len as nat, |r: int| g[r][c].unwrap())
}

/// Every filled row segment and column segment of the partial grid is a
/// prefix of some stored word.
pub open spec fn consistent(g: Seq<Seq<Option<char>>>, n: int, words: Set<Seq<char>>) -> bool {
    forall|cx: int, cy: int|
        0 <= cx < n && 0 <= cy < n && #[trigger] g[cy][cx] is Some ==> {
            &&& exists|w: Seq<char>| words.contains(w) && row_pref(g, cy, cx + 1).is_prefix_of(w)
            &&& exists|w: Seq<char>| words.contains(w) && col_pref(g, cx, cy + 1).is_prefix_of(w)
        }
}

/// The rows of one finished grid.
pub open spec fn rows_view(g: Vec<Vec<char>>) -> Seq<Seq<char>> {
    Seq::new(g@.len(), |r: int| g@[r]@)
}

/// The list of finished grids, as a sequence of row sequences.
pub open spec fn sols_view(v: Vec<Vec<Vec<char>>>) -> Seq<Seq<Seq<char>>> {
    Seq::new(v@.len(), |i: int| rows_view(v@[i]))
}

/// Column `c` of a finished grid, read top to bottom.
pub open spec fn col_seq(g: Seq<Seq<char>>, c: int, n: int) -> Seq<char> {
    Seq::new(n as nat, |r: int| g[r][c])
}

/// A word square: an `n` by `n` grid of symbols whose every row and every
/// column is a stored word.
pub open spec fn is_word_grid(g: Seq<Seq<char>>, n: int, words: Set<Seq<char>>) -> bool {
    &&& g.len() == n
    &&& forall|r: int| 0 <= r < n ==> (#[trigger] g[r]).len() == n
    &&& forall|r: int| 0 <= r < n ==> words.contains(#[trigger] g[r])
    &&& forall|c: int| 0 <= c < n ==> words.contains(#[trigger] col_seq(g, c, n))
}

/// The finished grid agrees with every filled cell of the partial grid.
pub open spec fn grid_extends(sol: Seq<Seq<char>>, g: Seq<Seq<Option<char>>>, n: int) -> bool {
    forall|cx: int, cy: int|
        0 <= cx < n && 0 <= cy < n && #[trigger] g[cy][cx] is Some ==> sol[cy][cx]
            == g[cy][cx].unwrap()
}

/// The traversal successor: after `coord`, the next cell of the grid in
/// the fixed search order, or `None` once the final cell is passed.
pub fn get_next_coord(coord: (usize, usize), wordlength: usize) -> (r: Option<(usize, usize)>)
    requires
        coord.0 < wordlength,
        coord.1 < wordlength,
    ensures
        (match r {
            Some(q) => Some((q.0 as int, q.1 as int)),
            None => None::<(int, int)>,
        }) == next_coord_spec(coord.0 as int, coord.1 as int, wordlength as int),
        r matches Some(q) ==> q.0 < wordlength && q.1 < wordlength,
{
    let low_side_y = coord.1 == 0;
    let high_side_x = coord.0 + 1 == wordlength;
    let high_side_y = coord.1 + 1 == wordlength;
    if !low_side_y && !high_side_x {
        Some((coord.0 + 1, coord.1 - 1))
    } else if low_side_y && !high_side_x {
        Some((0, coord.0 + 1))
    } else if !high_side_y && high_side_x {
        Some((coord.1 + 1, wordlength - 1))
    } else {
        None
    }
}

/// True when `v` holds the symbol `c`.
fn contains_char(v: &Vec<char>, c: char) -> (r: bool)
    ensures
        r == v@.contains(c),
{
    let mut j: usize = 0;
    while j < v.len()
        invariant
            j <= v@.len(),
            forall|t: int| 0 <= t < j ==> v@[t] != c,
        decreases v@.len() - j,
    {
        if v[j] == c {
            return true;
        }
        j += 1;
    }
    false
}

/// The symbols legal for both the row and the column at one cell: the
/// duplicate-free intersection of the two continuation symbol sets.
fn intersect_symbols(a: &Vec<char>, b: &Vec<char>) -> (r: Vec<char>)
    requires
        forall|i: int, j: int| 0 <= i < j < a@.len() ==> a@[i] != a@[j],
    ensures
        forall|c: char| r@.contains(c) <==> (a@.contains(c) && b@.contains(c)),
        forall|i: int, j: int| 0 <= i < j < r@.len() ==> r@[i] != r@[j],
{
    let mut r: Vec<char> = Vec::new();
    let mut i: usize = 0;
    while i < a.len()
        invariant
            i <= a@.len(),
            forall|i1: int, j1: int| 0 <= i1 < j1 < a@.len() ==> a@[i1] != a@[j1],
            forall|c: char|
                r@.contains(c) <==> exists|t: int| 0 <= t < i && a@[t] == c && b@.contains(c),
            forall|i1: int, j1: int| 0 <= i1 < j1 < r@.len() ==> r@[i1] != r@[j1],
        decreases a@.len() - i,
    {
        let c = a[i];
        if contains_char(b, c) {
            let ghost rpre = r@;
            proof {
                if rpre.contains(c) {
                    let t = choose|t: int| 0 <= t < i && a@[t] == c && b@.contains(c);
                    assert(a@[t] == a@[i as int]);
                    assert(false);
                }
            }
            r.push(c);
            proof {
                assert forall|d: char|
                    r@.contains(d) <==> exists|t: int|
                        0 <= t < i + 1 && a@[t] == d && b@.contains(d) by {
                    if r@.contains(d) {
                        let t0 = choose|t0: int| 0 <= t0 < r@.len() && r@[t0] == d;
                        if t0 < rpre.len() {
                            assert(rpre[t0] == d);
                            assert(rpre.contains(d));
                        } else {
                            assert(d == c);
                            assert(a@[i as int] == d && b@.contains(d));
                        }
                    }
                    if exists|t: int| 0 <= t < i + 1 && a@[t] == d && b@.contains(d) {
                        let t = choose|t: int| 0 <= t < i + 1 && a@[t] == d && b@.contains(d);
                        if t < i {
                            assert(rpre.contains(d));
                            let t1 = choose|t1: int| 0 <= t1 < rpre.len() && rpre[t1] == d;
                            assert(r@[t1] == d);
                        } else {
                            assert(r@[rpre.len() as int] == d);
                        }
                    }
                }
                assert forall|i1: int, j1: int|
                    0 <= i1 < j1 < r@.len() implies r@[i1] != r@[j1] by {
                    if j1 == rpre.len() as int {
                        if r@[i1] == c {
                            assert(rpre[i1] == c);
                            assert(rpre.contains(c));
                            assert(false);
                        }
                    }
                }
            }
        } else {
            proof {
                assert forall|d: char|
                    r@.contains(d) <==> exists|t: int|
                        0 <= t < i + 1 && a@[t] == d && b@.contains(d) by {
                    if exists|t: int| 0 <= t < i + 1 && a@[t] == d && b@.contains(d) {
                        let t = choose|t: int| 0 <= t < i + 1 && a@[t] == d && b@.contains(d);
                        assert(t < i);
                    }
                }
            }
        }
        i += 1;
    }
    proof {
        assert forall|c: char| r@.contains(c) <==> (a@.contains(c) && b@.contains(c)) by {
            if a@.contains(c) && b@.contains(c) {
                let t = choose|t: int| 0 <= t < a@.len() && a@[t] == c;
                assert(exists|t2: int| 0 <= t2 < i && a@[t2] == c && b@.contains(c));
            }
        }
    }
    r
}

/// The symbols in cells `(0, r)` through `(x - 1, r)`, in column order.
fn build_row_prefix(g: &Vec<Vec<Option<char>>>, x: usize, y: usize, n: usize) -> (r: Vec<char>)
    requires
        grid_dims(grid_view(*g), n as int),
        x <= n,
        y < n,
        forall|c: int| 0 <= c < x ==> grid_view(*g)[y as int][c] is Some,
    ensures
        r@ == row_pref(grid_view(*g), y as int, x as int),
{
    let mut r: Vec<char> = Vec::new();
    let mut c: usize = 0;
    while c < x
        invariant
            c <= x,
            x <= n,
            y < n,
            grid_dims(grid_view(*g), n as int),
            forall|t: int| 0 <= t < x ==> grid_view(*g)[y as int][t] is Some,
            r@ == row_pref(grid_view(*g), y as int, c as int),
        decreases x - c,
    {
        proof {
            assert(grid_view(*g)[y as int][c as int] is Some);
        }
        match g[y][c] {
            Some(ch) => {
                r.push(ch);
            },
            None => {
                proof {
                    assert(false);
                }
            },
        }
        proof {
            assert(r@ =~= row_pref(grid_view(*g), y as int, c + 1));
        }
        c += 1;
    }
    r
}

/// The symbols in cells `(x, 0)` through `(x, y - 1)`, in row order.
fn build_col_prefix(g: &Vec<Vec<Option<char>>>, x: usize, y: usize, n: usize) -> (r: Vec<char>)
    requires
        grid_dims(grid_view(*g), n as int),
        x < n,
        y <= n,
        forall|t: int| 0 <= t < y ==> grid_view(*g)[t][x as int] is Some,
    ensures
        r@ == col_pref(grid_view(*g), x as int, y as int),
{
    let mut r: Vec<char> = Vec::new();
    let mut t: usize = 0;
    while t < y
        invariant
            t <= y,
            y <= n,
            x < n,
            grid_dims(grid_view(*g), n as int),
            forall|t2: int| 0 <= t2 < y ==> grid_view(*g)[t2][x as int] is Some,
            r@ == col_pref(grid_view(*g), x as int, t as int),
        decreases y - t,
    {
        proof {
            assert(grid_view(*g)[t as int][x as int] is Some);
        }
        match g[t][x] {
            Some(ch) => {
                r.push(ch);
            },
            None => {
                proof {
                    assert(false);
                }
            },
        }
        proof {
            assert(r@ =~= col_pref(grid_view(*g), x as int, t + 1));
        }
        t += 1;
    }
    r
}

/// An isolated copy of the grid with `letter` placed at `(x, y)`.
fn copy_grid_place(g: &Vec<Vec<Option<char>>>, x: usize, y: usize, letter: char, n: usize) -> (r:
    Vec<Vec<Option<char>>>)
    requires
        grid_dims(grid_view(*g), n as int),
        x < n,
        y < n,
    ensures
        grid_view(r) == grid_view(*g).update(
            y as int,
            grid_view(*g)[y as int].update(x as int, Some(letter)),
        ),
        grid_dims(grid_view(r), n as int),
{
    let ghost target = grid_view(*g).update(
        y as int,
        grid_view(*g)[y as int].update(x as int, Some(letter)),
    );
    let mut out: Vec<Vec<Option<char>>> = Vec::new();
    let mut r0: usize = 0;
    while r0 < n
        invariant
            r0 <= n,
            x < n,
            y < n,
            grid_dims(grid_view(*g), n as int),
            target == grid_view(*g).update(
                y as int,
                grid_view(*g)[y as int].update(x as int, Some(letter)),
            ),
            out@.len() == r0 as int,
            forall|t: int| 0 <= t < r0 ==> out@[t]@ == target[t],
        decreases n - r0,
    {
        let mut row: Vec<Option<char>> = Vec::new();
        let mut c0: usize = 0;
        while c0 < n
            invariant
                c0 <= n,
                r0 < n,
                x < n,
                y < n,
                grid_dims(grid_view(*g), n as int),
                target == grid_view(*g).update(
                    y as int,
                    grid_view(*g)[y as int].update(x as int, Some(letter)),
                ),
                row@.len() == c0 as int,
                forall|t: int| 0 <= t < c0 ==> row@[t] == target[r0 as int][t],
            decreases n - c0,
        {
            if r0 == y && c0 == x {
                row.push(Some(letter));
            } else {
                proof {
                    assert(g@.len() == n);
                    assert(grid_view(*g)[r0 as int] == g@[r0 as int]@);
                    assert(g@[r0 as int]@.len() == n);
                }
                let cell = g[r0][c0];
                row.push(cell);
            }
            c0 += 1;
        }
        proof {
            assert(row@ =~= target[r0 as int]);
        }
        out.push(row);
        r0 += 1;
    }
    proof {
        assert(grid_view(out) =~= target);
    }
    out
}

/// Reads off a fully filled grid as rows of symbols.
fn grid_unwrap(g: &Vec<Vec<Option<char>>>, n: usize) -> (r: Vec<Vec<char>>)
    requires
        grid_dims(grid_view(*g), n as int),
        forall|cx: int, cy: int|
            0 <= cx < n && 0 <= cy < n ==> #[trigger] grid_view(*g)[cy][cx] is Some,
    ensures
        rows_view(r).len() == n as int,
        forall|t: int| 0 <= t < n ==> rows_view(r)[t] == row_pref(grid_view(*g), t, n as int),
{
    let mut out: Vec<Vec<char>> = Vec::new();
    let mut r0: usize = 0;
    while r0 < n
        invariant
            r0 <= n,
            grid_dims(grid_view(*g), n as int),
            forall|cx: int, cy: int|
                0 <= cx < n && 0 <= cy < n ==> #[trigger] grid_view(*g)[cy][cx] is Some,
            out@.len() == r0 as int,
            forall|t: int| 0 <= t < r0 ==> out@[t]@ == row_pref(grid_view(*g), t, n as int),
        decreases n - r0,
    {
        let row = build_row_prefix(g, n, r0, n);
        out.push(row);
        r0 += 1;
    }
    out
}


/// Placing `letter` at `(x, y)` in a coherent partial grid keeps every
/// filled row and column segment a prefix of some stored word, and the
/// word squares extending the new grid are exactly those extending the
/// old one with `letter` in that cell.
proof fn lemma_place(
    gv: Seq<Seq<Option<char>>>,
    g2v: Seq<Seq<Option<char>>>,
    n: int,
    x: int,
    y: int,
    letter: char,
    words: Set<Seq<char>>,
    rp: Seq<char>,
    cp: Seq<char>,
)
    requires
        0 <= x < n,
        0 <= y < n,
        partial_ok(gv, n, x, y),
        consistent(gv, n, words),
        rp == row_pref(gv, y, x),
        cp == col_pref(gv, x, y),
        exists|w: Seq<char>| words.contains(w) && (rp + seq![letter]).is_prefix_of(w),
        exists|w: Seq<char>| words.contains(w) && (cp + seq![letter]).is_prefix_of(w),
        g2v == gv.update(y, gv[y].update(x, Some(letter))),
    ensures
        forall|cx: int, cy: int|
            0 <= cx < n && 0 <= cy < n ==> #[trigger] g2v[cy][cx] == (if cx == x && cy == y {
                Some(letter)
            } else {
                gv[cy][cx]
            }),
        grid_dims(g2v, n),
        consistent(g2v, n, words),
        forall|sol: Seq<Seq<char>>|
            is_word_grid(sol, n, words) ==> (grid_extends(sol, g2v, n) <==> (grid_extends(
                sol,
                gv,
                n,
            ) && sol[y][x] == letter)),
{
    assert forall|cx: int, cy: int| 0 <= cx < n && 0 <= cy < n implies #[trigger] g2v[cy][cx] == (
    if cx == x && cy == y {
        Some(letter)
    } else {
        gv[cy][cx]
    }) by {
        assert(g2v[cy] == (if cy == y {
            gv[y].update(x, Some(letter))
        } else {
            gv[cy]
        }));
    }
    assert forall|r: int| 0 <= r < n implies (#[trigger] g2v[r]).len() == n by {
        assert(g2v[r] == (if r == y {
            gv[y].update(x, Some(letter))
        } else {
            gv[r]
        }));
    }
    assert(row_pref(g2v, y, x + 1) =~= rp + seq![letter]);
    assert(col_pref(g2v, x, y + 1) =~= cp + seq![letter]);
    assert forall|cx: int, cy: int|
        0 <= cx < n && 0 <= cy < n && #[trigger] gv[cy][cx] is Some implies {
        &&& row_pref(g2v, cy, cx + 1) == row_pref(gv, cy, cx + 1)
        &&& col_pref(g2v, cx, cy + 1) == col_pref(gv, cx, cy + 1)
    } by {
        assert(prior(cx, cy, x, y));
        if cy == y {
            assert(cx < x);
        }
        if cx == x {
            assert(cy < y);
        }
        assert(row_pref(g2v, cy, cx + 1) =~= row_pref(gv, cy, cx + 1));
        assert(col_pref(g2v, cx, cy + 1) =~= col_pref(gv, cx, cy + 1));
    }
    assert(consistent(g2v, n, words));
    assert forall|sol: Seq<Seq<char>>| is_word_grid(sol, n, words) implies (grid_extends(
        sol,
        g2v,
        n,
    ) <==> (grid_extends(sol, gv, n) && sol[y][x] == letter)) by {
        if grid_extends(sol, g2v, n) {
            assert(g2v[y][x] is Some);
            assert forall|cx: int, cy: int|
                0 <= cx < n && 0 <= cy < n && #[trigger] gv[cy][cx] is Some implies sol[cy][cx]
                == gv[cy][cx].unwrap() by {
                assert(g2v[cy][cx] == gv[cy][cx]);
            }
        }
        if grid_extends(sol, gv, n) && sol[y][x] == letter {
            assert forall|cx: int, cy: int|
                0 <= cx < n && 0 <= cy < n && #[trigger] g2v[cy][cx] is Some implies sol[cy][cx]
                == g2v[cy][cx].unwrap() by {
                if cx != x || cy != y {
                    assert(g2v[cy][cx] == gv[cy][cx]);
                }
            }
        }
    }
}

/// A fully filled coherent grid, read off cell by cell, is a word square,
/// and it is the only word square that agrees with all its cells.
proof fn lemma_full_grid(
    g2v: Seq<Seq<Option<char>>>,
    sv: Seq<Seq<char>>,
    n: int,
    words: Set<Seq<char>>,
)
    requires
        n >= 1,
        grid_dims(g2v, n),
        consistent(g2v, n, words),
        forall|w: Seq<char>| words.contains(w) ==> w.len() == n,
        forall|cx: int, cy: int| 0 <= cx < n && 0 <= cy < n ==> #[trigger] g2v[cy][cx] is Some,
        sv.len() == n,
        forall|r: int| 0 <= r < n ==> #[trigger] sv[r] == row_pref(g2v, r, n),
    ensures
        is_word_grid(sv, n, words),
        grid_extends(sv, g2v, n),
        forall|sol2: Seq<Seq<char>>|
            is_word_grid(sol2, n, words) && grid_extends(sol2, g2v, n) ==> sol2 == sv,
{
    assert forall|r: int| 0 <= r < n implies words.contains(#[trigger] sv[r]) by {
        assert(g2v[r][n - 1] is Some);
        let w = choose|w: Seq<char>|
            words.contains(w) && row_pref(g2v, r, n).is_prefix_of(w);
        assert(w.len() == n);
        assert(row_pref(g2v, r, n) =~= w);
    }
    assert forall|c: int| 0 <= c < n implies words.contains(#[trigger] col_seq(sv, c, n)) by {
        assert(g2v[n - 1][c] is Some);
        let w = choose|w: Seq<char>|
            words.contains(w) && col_pref(g2v, c, n).is_prefix_of(w);
        assert(w.len() == n);
        assert(col_pref(g2v, c, n) =~= w);
        assert(col_seq(sv, c, n) =~= col_pref(g2v, c, n));
    }
    assert forall|r: int| 0 <= r < n implies (#[trigger] sv[r]).len() == n by {
        assert(sv[r] == row_pref(g2v, r, n));
    }
    assert(is_word_grid(sv, n, words));
    assert forall|cx: int, cy: int|
        0 <= cx < n && 0 <= cy < n implies #[trigger] sv[cy][cx] == g2v[cy][cx].unwrap() by {
        assert(sv[cy] == row_pref(g2v, cy, n));
    }
    assert(grid_extends(sv, g2v, n));
    assert forall|sol2: Seq<Seq<char>>|
        is_word_grid(sol2, n, words) && grid_extends(sol2, g2v, n) implies sol2 == sv by {
        assert forall|r: int| 0 <= r < n implies sol2[r] =~= sv[r] by {
            assert forall|c: int| 0 <= c < n implies sol2[r][c] == sv[r][c] by {
                assert(g2v[r][c] is Some);
            }
        }
        assert(sol2 =~= sv);
    }
}

/// Explores the cell `(x, y)` of a partially filled grid and appends to
/// `out`, exactly once each, every word square that agrees with the cells
/// already filled.
#[verifier::loop_isolation(false)]
#[verifier::rlimit(90)]
fn search_step(
    dict: &PrefixDictionary,
    n: usize,
    g: &Vec<Vec<Option<char>>>,
    x: usize,
    y: usize,
    out: &mut Vec<Vec<Vec<char>>>,
)
    requires
        dict.wf(),
        forall|w: Seq<char>| dict.words().contains(w) ==> w.len() == n as int,
        n >= 1,
        x < n,
        y < n,
        partial_ok(grid_view(*g), n as int, x as int, y as int),
        consistent(grid_view(*g), n as int, dict.words()),
    ensures
        final(out)@.len() >= old(out)@.len(),
        forall|t: int| 0 <= t < old(out)@.len() ==> final(out)@[t] == old(out)@[t],
        forall|t: int|
            old(out)@.len() <= t < final(out)@.len() ==> is_word_grid(
                rows_view(final(out)@[t]),
                n as int,
                dict.words(),
            ) && grid_extends(rows_view(final(out)@[t]), grid_view(*g), n as int),
        forall|sol: Seq<Seq<char>>|
            is_word_grid(sol, n as int, dict.words()) && grid_extends(
                sol,
                grid_view(*g),
                n as int,
            ) ==> exists|t: int|
                old(out)@.len() <= t < final(out)@.len() && rows_view(final(out)@[t]) == sol,
        forall|t1: int, t2: int|
            old(out)@.len() <= t1 < t2 < final(out)@.len() ==> rows_view(final(out)@[t1])
                != rows_view(final(out)@[t2]),
    decreases 2 * (n as int) - (x as int) - (y as int), n as int - x as int,
{
    let ghost gv = grid_view(*g);
    let ghost words = dict.words();
    proof {
        assert forall|c: int| 0 <= c < x implies gv[y as int][c] is Some by {
            assert(prior(c, y as int, x as int, y as int));
        }
        assert forall|t: int| 0 <= t < y implies gv[t][x as int] is Some by {
            assert(prior(x as int, t, x as int, y as int));
        }
        assert(!(gv[y as int][x as int] is Some)) by {
            assert(!prior(x as int, y as int, x as int, y as int));
        }
    }
    let rp = build_row_prefix(g, x, y, n);
    let cp = build_col_prefix(g, x, y, n);
    // Any word square extending this grid keeps these prefixes.
    proof {
        assert forall|sol: Seq<Seq<char>>|
            is_word_grid(sol, n as int, words) && grid_extends(sol, gv, n as int) implies {
            &&& words.contains(sol[y as int])
            &&& rp@.is_prefix_of(sol[y as int])
            &&& words.contains(col_seq(sol, x as int, n as int))
            &&& cp@.is_prefix_of(col_seq(sol, x as int, n as int))
        } by {
            assert(words.contains(sol[y as int]));
            assert(rp@ =~= sol[y as int].subrange(0, x as int));
            assert(words.contains(col_seq(sol, x as int, n as int)));
            assert(cp@ =~= col_seq(sol, x as int, n as int).subrange(0, y as int));
        }
    }
    let row_conts_opt = dict.continuations(&rp);
    let col_conts_opt = dict.continuations(&cp);
    let (rcs, ccs) = match (row_conts_opt, col_conts_opt) {
        (Some(rcs), Some(ccs)) => (rcs, ccs),
        _ => {
            proof {
                assert forall|sol: Seq<Seq<char>>|
                    !(is_word_grid(sol, n as int, words) && grid_extends(sol, gv, n as int)) by {
                    if is_word_grid(sol, n as int, words) && grid_extends(sol, gv, n as int) {
                        assert(words.contains(sol[y as int]) && rp@.is_prefix_of(sol[y as int]));
                        assert(words.contains(col_seq(sol, x as int, n as int))
                            && cp@.is_prefix_of(col_seq(sol, x as int, n as int)));
                    }
                }
            }
            return ;
        },
    };
    let common = intersect_symbols(&rcs.symbols, &ccs.symbols);
    let next = get_next_coord((x, y), n);
    let ghost base = out@.len();
    let mut li: usize = 0;
    while li < common.len()
        invariant
            li <= common@.len(),
            out@.len() >= base,
            forall|t: int| 0 <= t < base ==> out@[t] == old(out)@[t],
            forall|t: int|
                base <= t < out@.len() ==> is_word_grid(rows_view(out@[t]), n as int, words)
                    && grid_extends(rows_view(out@[t]), gv, n as int) && exists|j: int|
                    0 <= j < li && rows_view(out@[t])[y as int][x as int] == common@[j],
            forall|sol: Seq<Seq<char>>|
                is_word_grid(sol, n as int, words) && grid_extends(sol, gv, n as int) && (
                exists|j: int| 0 <= j < li && sol[y as int][x as int] == common@[j]) ==> exists|
                    t: int,
                |
                    base <= t < out@.len() && rows_view(out@[t]) == sol,
            forall|t1: int, t2: int|
                base <= t1 < t2 < out@.len() ==> rows_view(out@[t1]) != rows_view(out@[t2]),
        decreases common@.len() - li,
    {
        let letter = common[li];
        let g2 = copy_grid_place(g, x, y, letter, n);
        let ghost g2v = grid_view(g2);
        proof {
            assert(common@.contains(letter));
            assert(rcs.symbols@.contains(letter) && ccs.symbols@.contains(letter));
            lemma_place(gv, g2v, n as int, x as int, y as int, letter, words, rp@, cp@);
        }
        let ghost out_mid = out@;
        match next {
            None => {
                proof {
                    lemma_next_coord_props(x as int, y as int, n as int);
                    assert(x as int == n - 1 && y as int == n - 1);
                    assert forall|cx: int, cy: int|
                        0 <= cx < n && 0 <= cy < n implies #[trigger] g2v[cy][cx] is Some by {
                        if cx != x as int || cy != y as int {
                            assert(prior(cx, cy, x as int, y as int));
                        }
                    }
                }
                let sol = grid_unwrap(&g2, n);
                let ghost sv = rows_view(sol);
                proof {
                    lemma_full_grid(g2v, sv, n as int, words);
                }
                out.push(sol);
                proof {
                    assert(out@ == out_mid.push(sol));
                    assert forall|t: int| 0 <= t < out_mid.len() implies out@[t]
                        == out_mid[t] by {}
                    assert(rows_view(out@[out_mid.len() as int]) == sv);
                    // The facts every branch hands to the shared bookkeeping.
                    assert forall|t: int|
                        out_mid.len() <= t < out@.len() implies is_word_grid(
                        rows_view(out@[t]),
                        n as int,
                        words,
                    ) && grid_extends(rows_view(out@[t]), g2v, n as int) by {
                        assert(t == out_mid.len());
                        assert(rows_view(out@[t]) == sv);
                    }
                    // Any word square extending the placed grid is this very one,
                    // because the grid is full.
                    assert forall|sol2: Seq<Seq<char>>|
                        is_word_grid(sol2, n as int, words) && grid_extends(
                        sol2,
                        g2v,
                        n as int,
                    ) implies exists|t: int|
                        out_mid.len() <= t < out@.len() && rows_view(out@[t]) == sol2 by {
                        assert(sol2 == sv);
                        assert(rows_view(out@[out_mid.len() as int]) == sol2);
                    }
                }
            },
            Some(q) => {
                proof {
                    lemma_next_coord_props(x as int, y as int, n as int);
                    assert(partial_ok(g2v, n as int, q.0 as int, q.1 as int));
                    assert(prior(x as int, y as int, q.0 as int, q.1 as int));
                }
                search_step(dict, n, &g2, q.0, q.1, out);
            },
        }
        proof {
            // Shared bookkeeping for both branches. The facts over the grids
            // appended in this iteration:
            assert(out@.len() >= out_mid.len());
            assert(forall|t: int| 0 <= t < out_mid.len() ==> out@[t] == out_mid[t]);
            assert forall|t: int| out_mid.len() <= t < out@.len() implies {
                &&& is_word_grid(rows_view(out@[t]), n as int, words)
                &&& grid_extends(rows_view(out@[t]), gv, n as int)
                &&& rows_view(out@[t])[y as int][x as int] == letter
            } by {
                assert(is_word_grid(rows_view(out@[t]), n as int, words));
                assert(grid_extends(rows_view(out@[t]), g2v, n as int));
            }
            // Entries from earlier iterations are untouched, and their facts
            // carry over.
            assert forall|t: int| base <= t < out_mid.len() implies {
                &&& rows_view(out@[t]) == rows_view(out_mid[t])
                &&& is_word_grid(rows_view(out@[t]), n as int, words)
                &&& grid_extends(rows_view(out@[t]), gv, n as int)
                &&& exists|j: int|
                    0 <= j < li && rows_view(out@[t])[y as int][x as int] == common@[j]
            } by {
                assert(out@[t] == out_mid[t]);
            }
            // Completeness up to the letters handled so far.
            assert forall|sol: Seq<Seq<char>>|
                is_word_grid(sol, n as int, words) && grid_extends(sol, gv, n as int) && (exists|
                    j: int,
                |
                    0 <= j < li + 1 && sol[y as int][x as int] == common@[j]) implies exists|
                t: int,
            |
                base <= t < out@.len() && rows_view(out@[t]) == sol by {
                let j = choose|j: int| 0 <= j < li + 1 && sol[y as int][x as int] == common@[j];
                if sol[y as int][x as int] == letter {
                    assert(grid_extends(sol, g2v, n as int));
                    let t = choose|t: int|
                        out_mid.len() <= t < out@.len() && rows_view(out@[t]) == sol;
                    assert(base <= t < out@.len());
                } else {
                    assert(common@[j] != letter);
                    assert(j != li as int);
                    assert(j < li);
                    let t = choose|t: int|
                        base <= t < out_mid.len() && rows_view(out_mid[t]) == sol;
                    assert(rows_view(out@[t]) == sol);
                }
            }
            // Distinctness across the letters handled so far.
            assert forall|t1: int, t2: int|
                base <= t1 < t2 < out@.len() implies rows_view(out@[t1]) != sols_view(
                *out,
            )[t2] by {
                if t1 < out_mid.len() && t2 >= out_mid.len() {
                    let j = choose|j: int|
                        0 <= j < li && rows_view(out@[t1])[y as int][x as int] == common@[j];
                    assert(common@[j] != common@[li as int]);
                    assert(rows_view(out@[t2])[y as int][x as int] == letter);
                }
            }
        }
        li += 1;
    }
    proof {
        // Every extending word square places one of the common symbols here.
        assert forall|sol: Seq<Seq<char>>|
            is_word_grid(sol, n as int, words) && grid_extends(sol, gv, n as int) implies exists|
            t: int,
        |
            base <= t < out@.len() && rows_view(out@[t]) == sol by {
            let c0 = sol[y as int][x as int];
            assert(rp@ + seq![c0] =~= sol[y as int].subrange(0, x + 1));
            assert((rp@ + seq![c0]).is_prefix_of(sol[y as int])) by {
                assert(sol[y as int].subrange(0, x + 1).is_prefix_of(sol[y as int])) by {
                    assert(sol[y as int].subrange(0, x + 1) =~= sol[y as int].subrange(
                        0,
                        (x + 1) as int,
                    ));
                    assert(sol[y as int].subrange(0, (x + 1) as int).subrange(0, (x + 1) as int)
                        =~= sol[y as int].subrange(0, (x + 1) as int));
                }
            }
            assert(rcs.symbols@.contains(c0));
            assert(cp@ + seq![c0] =~= col_seq(sol, x as int, n as int).subrange(0, y + 1));
            assert((cp@ + seq![c0]).is_prefix_of(col_seq(sol, x as int, n as int))) by {
                assert(col_seq(sol, x as int, n as int).subrange(0, y + 1).subrange(
                    0,
                    (y + 1) as int,
                ) =~= col_seq(sol, x as int, n as int).subrange(0, y + 1));
            }
            assert(ccs.symbols@.contains(c0));
            assert(common@.contains(c0));
            let j = choose|j: int| 0 <= j < common@.len() && common@[j] == c0;
            assert(exists|j2: int|
                0 <= j2 < li && sol[y as int][x as int] == common@[j2]);
        }
    }
}

/// Enumerates every word square of size `n` over a dictionary already
/// restricted to words of length exactly `n`. A grid size of zero is
/// rejected; an empty dictionary yields an empty list, not an error. The
/// returned list holds exactly the word squares, each exactly once.
pub fn solve(n: usize, dict: &PrefixDictionary) -> (r: Result<
    Vec<Vec<Vec<char>>>,
    WordSquareError,
>)
    requires
        dict.wf(),
        n > 0 ==> forall|w: Seq<char>| dict.words().contains(w) ==> w.len() == n as int,
    ensures
        n == 0 ==> r == Err::<Vec<Vec<Vec<char>>>, WordSquareError>(
            WordSquareError::InvalidGridSize,
        ),
        n > 0 ==> r is Ok,
        r matches Ok(sols) ==> {
            &&& forall|sol: Seq<Seq<char>>|
                sols_view(sols).contains(sol) <==> is_word_grid(sol, n as int, dict.words())
            &&& forall|t1: int, t2: int|
                0 <= t1 < t2 < sols_view(sols).len() ==> sols_view(sols)[t1] != sols_view(
                    sols,
                )[t2]
        },
{
    if n == 0 {
        return Err(WordSquareError::InvalidGridSize);
    }
    let mut g: Vec<Vec<Option<char>>> = Vec::new();
    let mut r0: usize = 0;
    while r0 < n
        invariant
            r0 <= n,
            g@.len() == r0 as int,
            forall|t: int|
                0 <= t < r0 ==> (#[trigger] g@[t]@).len() == n && forall|c: int|
                    0 <= c < n ==> g@[t]@[c] is None,
        decreases n - r0,
    {
        let mut row: Vec<Option<char>> = Vec::new();
        let mut c0: usize = 0;
        while c0 < n
            invariant
                c0 <= n,
                row@.len() == c0 as int,
                forall|t: int| 0 <= t < c0 ==> row@[t] is None,
            decreases n - c0,
        {
            row.push(None);
            c0 += 1;
        }
        g.push(row);
        r0 += 1;
    }
    let ghost gv = grid_view(g);
    proof {
        assert forall|cx: int, cy: int| 0 <= cx < n && 0 <= cy < n implies (#[trigger] gv[cy][cx]
            is Some <==> prior(cx, cy, 0, 0)) by {
            assert(gv[cy] == g@[cy]@);
            assert(gv[cy][cx] is None);
        }
        assert forall|r: int| 0 <= r < n implies (#[trigger] gv[r]).len() == n by {
            assert(gv[r] == g@[r]@);
        }
        assert(partial_ok(gv, n as int, 0, 0));
        assert(consistent(gv, n as int, dict.words()));
    }
    let mut out: Vec<Vec<Vec<char>>> = Vec::new();
    search_step(dict, n, &g, 0, 0, &mut out);
    proof {
        assert forall|sol: Seq<Seq<char>>|
            sols_view(out).contains(sol) <==> is_word_grid(sol, n as int, dict.words()) by {
            if sols_view(out).contains(sol) {
                let t = choose|t: int|
                    0 <= t < sols_view(out).len() && sols_view(out)[t] == sol;
                assert(sols_view(out)[t] == rows_view(out@[t]));
            }
            if is_word_grid(sol, n as int, dict.words()) {
                assert(grid_extends(sol, gv, n as int));
                let t = choose|t: int| 0 <= t < out@.len() && rows_view(out@[t]) == sol;
                assert(sols_view(out)[t] == sol);
                assert(sols_view(out).contains(sol));
            }
        }
        assert forall|t1: int, t2: int|
            0 <= t1 < t2 < sols_view(out).len() implies sols_view(out)[t1] != sols_view(
            out,
        )[t2] by {
            assert(sols_view(out)[t1] == rows_view(out@[t1]));
            assert(sols_view(out)[t2] == rows_view(out@[t2]));
        }
    }
    Ok(out)
}

/// The whole traversal from `(x, y)`: the successor applied until it
/// yields `None`.
pub open spec fn traversal_from(x: int, y: int, n: int) -> Seq<(int, int)>
    decreases 2 * n - x - y, n - x,
        when 0 <= x < n && 0 <= y < n
        via traversal_from_dec
{
    match next_coord_spec(x, y, n) {
        None => seq![(x, y)],
        Some(q) => seq![(x, y)] + traversal_from(q.0, q.1, n),
    }
}

#[via_fn]
proof fn traversal_from_dec(x: int, y: int, n: int) {
    lemma_next_coord_props(x, y, n);
}

proof fn lemma_traversal_props(x: int, y: int, n: int)
    requires
        0 <= x < n,
        0 <= y < n,
    ensures
        ({
            let t = traversal_from(x, y, n);
            &&& t.len() >= 1
            &&& t[0] == (x, y)
            &&& t.last() == (n - 1, n - 1)
            &&& forall|i: int|
                0 <= i < t.len() ==> (0 <= (#[trigger] t[i]).0 < n && 0 <= t[i].1 < n)
            &&& forall|i: int, j: int|
                0 <= i < j < t.len() ==> prior(t[i].0, t[i].1, t[j].0, t[j].1)
            &&& forall|cx: int, cy: int|
                0 <= cx < n && 0 <= cy < n && ((cx == x && cy == y) || prior(x, y, cx, cy))
                    ==> t.contains((cx, cy))
        }),
    decreases 2 * n - x - y, n - x,
{
    lemma_next_coord_props(x, y, n);
    let t = traversal_from(x, y, n);
    match next_coord_spec(x, y, n) {
        None => {
            assert(t =~= seq![(x, y)]);
            assert forall|cx: int, cy: int|
                0 <= cx < n && 0 <= cy < n && ((cx == x && cy == y) || prior(x, y, cx, cy))
                    implies t.contains((cx, cy)) by {
                assert(!prior(x, y, cx, cy));
                assert(t[0] == (cx, cy));
            }
        },
        Some(q) => {
            lemma_traversal_props(q.0, q.1, n);
            let t2 = traversal_from(q.0, q.1, n);
            assert(t == seq![(x, y)] + t2);
            assert(t.len() == 1 + t2.len());
            assert(t[0] == (x, y));
            assert forall|i: int| 1 <= i < t.len() implies t[i] == t2[i - 1] by {}
            assert(t.last() == t2.last());
            assert forall|i: int, j: int|
                0 <= i < j < t.len() implies prior(t[i].0, t[i].1, t[j].0, t[j].1) by {
                if i == 0 {
                    assert(t[j] == t2[j - 1]);
                    if j == 1 {
                        assert(t2[0] == (q.0, q.1));
                    } else {
                        assert(prior(t2[0].0, t2[0].1, t2[j - 1].0, t2[j - 1].1));
                    }
                } else {
                    assert(prior(t2[i - 1].0, t2[i - 1].1, t2[j - 1].0, t2[j - 1].1));
                }
            }
            assert forall|cx: int, cy: int|
                0 <= cx < n && 0 <= cy < n && ((cx == x && cy == y) || prior(x, y, cx, cy))
                    implies t.contains((cx, cy)) by {
                if cx == x && cy == y {
                    assert(t[0] == (cx, cy));
                } else {
                    assert(prior(x, y, cx, cy));
                    assert(!prior(cx, cy, q.0, q.1));
                    if (cx, cy) == (q.0, q.1) || prior(q.0, q.1, cx, cy) {
                        assert(t2.contains((cx, cy)));
                        let i = choose|i: int| 0 <= i < t2.len() && t2[i] == (cx, cy);
                        assert(t[i + 1] == (cx, cy));
                    } else {
                        assert(prior(cx, cy, q.0, q.1));
                    }
                }
            }
        },
    }
}

/// Law of the traversal order: starting from the origin, the successor
/// function visits every one of the grid's coordinates exactly once, in
/// strictly ascending traversal order, and yields `None` only after the
/// final coordinate `(n - 1, n - 1)`.
pub proof fn lemma_traversal_order(n: int)
    requires
        n >= 1,
    ensures
        ({
            let t = traversal_from(0, 0, n);
            &&& t[0] == (0int, 0int)
            &&& t.last() == (n - 1, n - 1)
            &&& next_coord_spec(n - 1, n - 1, n) is None
            &&& forall|i: int|
                0 <= i < t.len() ==> (0 <= (#[trigger] t[i]).0 < n && 0 <= t[i].1 < n)
            &&& forall|i: int, j: int|
                0 <= i < j < t.len() ==> prior(t[i].0, t[i].1, t[j].0, t[j].1)
            &&& forall|i: int, j: int| 0 <= i < j < t.len() ==> t[i] != t[j]
            &&& forall|cx: int, cy: int| 0 <= cx < n && 0 <= cy < n ==> t.contains((cx, cy))
        }),
{
    lemma_traversal_props(0, 0, n);
    let t = traversal_from(0, 0, n);
    assert forall|i: int, j: int| 0 <= i < j < t.len() implies t[i] != t[j] by {
        assert(prior(t[i].0, t[i].1, t[j].0, t[j].1));
    }
    assert forall|cx: int, cy: int| 0 <= cx < n && 0 <= cy < n implies t.contains((cx, cy)) by {
        if cx != 0 || cy != 0 {
            assert(prior(0, 0, cx, cy));
        }
    }
}

/// Law of the one-cell grid: a 1 by 1 grid is a word square exactly when
/// its single symbol is itself a stored word, so `solve(1, d)` returns one
/// solution per stored single-symbol word.
pub proof fn lemma_unit_word_grid(words: Set<Seq<char>>, sol: Seq<Seq<char>>)
    ensures
        is_word_grid(sol, 1, words) <==> (sol.len() == 1 && sol[0].len() == 1 && words.contains(
            sol[0],
        )),
{
    if is_word_grid(sol, 1, words) {
        assert(col_seq(sol, 0, 1) =~= sol[0]);
    }
    if sol.len() == 1 && sol[0].len() == 1 && words.contains(sol[0]) {
        assert forall|c: int| 0 <= c < 1 implies words.contains(#[trigger] col_seq(sol, c, 1)) by {
            assert(col_seq(sol, 0, 1) =~= sol[0]);
        }
    }
}

} // verus!
